//! The recursive length-prefix codec: nested byte strings and lists to a
//! flat byte sequence and back.

use vstd::prelude::*;

verus! {

broadcast use vstd::std_specs::vec::group_vec_axioms, vstd::seq::group_seq_axioms;

/// The mathematical value that an `RlpEncodable` stands for.
pub enum RlpItem {
    Bytes(Seq<u8>),
    List(Seq<RlpItem>),
}

/// A value of the codec: a byte string or an ordered list of values.
#[derive(PartialEq, Eq, Debug)]
pub enum RlpEncodable {
    Binary(Vec<u8>),
    List(Vec<RlpEncodable>),
}

/// Why a byte sequence is not the encoding of a value.
#[derive(PartialEq, Eq, Structural, Debug, Clone, Copy)]
pub enum RlpError {
    /// A declared length, or the bytes that hold it, run past the input;
    /// or a list's items do not fill its payload exactly.
    MalformedLength,
    /// The input is empty, or bytes are left after the first value.
    TrailingOrTruncatedInput,
}

/// A flat byte sequence produced by `RlpEncodable::encode`.
#[derive(PartialEq, Eq, Debug, Clone)]
pub struct RlpDecodable(pub Vec<u8>);

/// The encoded form under its shorter name.
pub type Rlp = RlpDecodable;

/// A type that is written as, and read back from, a codec value.
pub trait Rlpable: Sized {
    /// Whether the value has the shape that `encode` can write.
    spec fn encodable(&self) -> bool;

    /// The codec value that stands for this value.
    fn encode(self) -> RlpEncodable
        requires
            self.encodable(),
    ;

    /// The value that `from` encodes, if it encodes one.
    fn decode(from: RlpDecodable) -> Option<Self>;
}

pub const BINARY_OFFSET: u8 = 0x80;

pub const LIST_OFFSET: u8 = 0xc0;

pub const SHORT_LENGTH_LIMIT: usize = 55;

/// The views of a sequence of values.
pub open spec fn item_views(s: Seq<RlpEncodable>) -> Seq<RlpItem>
    decreases s,
{
    if s.len() == 0 {
        seq![]
    } else {
        item_views(s.drop_last()).push(item_view(s.last()))
    }
}

/// The mathematical value of `v`.
pub open spec fn item_view(v: RlpEncodable) -> RlpItem
    decreases v,
{
    match v {
        RlpEncodable::Binary(b) => RlpItem::Bytes(b@),
        RlpEncodable::List(items) => RlpItem::List(item_views(items@)),
    }
}

impl View for RlpEncodable {
    type V = RlpItem;

    open spec fn view(&self) -> RlpItem {
        item_view(*self)
    }
}

/// Minimal big-endian bytes of `n` (empty for zero).
pub open spec fn be_bytes(n: nat) -> Seq<u8>
    decreases n,
{
    if n == 0 {
        seq![]
    } else {
        be_bytes(n / 256).push((n % 256) as u8)
    }
}

/// The big-endian number that the bytes `s` spell.
pub open spec fn be_value(s: Seq<u8>) -> nat
    decreases s.len(),
{
    if s.len() == 0 {
        0
    } else {
        be_value(s.drop_last()) * 256 + s.last() as nat
    }
}

/// The header in front of a payload of `n` bytes; `base` is `0x80` for a
/// byte string and `0xc0` for a list.
pub open spec fn length_prefix(n: nat, base: u8) -> Seq<u8> {
    if n <= 55 {
        seq![(base + n) as u8]
    } else {
        seq![(base + 55 + be_bytes(n).len()) as u8] + be_bytes(n)
    }
}

/// The encoding of each item of `s`, one after the other.
pub open spec fn concat_encodings(s: Seq<RlpItem>) -> Seq<u8>
    decreases s,
{
    if s.len() == 0 {
        seq![]
    } else {
        concat_encodings(s.drop_last()) + encoding(s.last())
    }
}

/// The canonical encoding of a value.
pub open spec fn encoding(v: RlpItem) -> Seq<u8>
    decreases v,
{
    match v {
        RlpItem::Bytes(b) => if b.len() == 1 && b[0] < 0x80 {
            b
        } else {
            length_prefix(b.len(), 0x80) + b
        },
        RlpItem::List(items) => {
            let payload = concat_encodings(items);
            length_prefix(payload.len(), 0xc0) + payload
        },
    }
}


/// `256` to the power `k`.
pub open spec fn pow256(k: nat) -> nat
    decreases k,
{
    if k == 0 {
        1
    } else {
        256 * pow256((k - 1) as nat)
    }
}

proof fn lemma_be_bytes_len(n: nat, k: nat)
    requires
        n < pow256(k),
    ensures
        be_bytes(n).len() <= k,
    decreases k,
{
    if n > 0 {
        let p = pow256((k - 1) as nat);
        assert(n / 256 < p) by (nonlinear_arith)
            requires
                n < 256 * p,
        ;
        lemma_be_bytes_len(n / 256, (k - 1) as nat);
    }
}

proof fn lemma_be_bytes_len_usize(n: nat)
    requires
        n <= usize::MAX,
    ensures
        be_bytes(n).len() <= 8,
        n > 0 ==> be_bytes(n).len() >= 1,
{
    reveal_with_fuel(pow256, 9);
    lemma_be_bytes_len(n, 8);
}

/// The minimal big-endian bytes of `n`.
fn big_endian(n: usize) -> (r: Vec<u8>)
    ensures
        r@ == be_bytes(n as nat),
        r@.len() <= 8,
{
    proof {
        lemma_be_bytes_len_usize(n as nat);
    }
    let mut m: usize = n;
    let mut out: Vec<u8> = Vec::new();
    while m > 0
        invariant
            be_bytes(n as nat) == be_bytes(m as nat) + out@,
        decreases m,
    {
        let b: u8 = (m % 256) as u8;
        proof {
            assert(be_bytes(m as nat) == be_bytes((m / 256) as nat).push(b));
            assert(be_bytes(m as nat) + out@ == be_bytes((m / 256) as nat) + (seq![b] + out@));
        }
        out.insert(0, b);
        m = m / 256;
    }
    assert(be_bytes(0) + out@ == out@);
    out
}

impl RlpEncodable {
    /// The header for a payload of `length` bytes.
    fn encode_length(length: usize, offset: u8) -> (r: Vec<u8>)
        requires
            offset == BINARY_OFFSET || offset == LIST_OFFSET,
        ensures
            r@ == length_prefix(length as nat, offset),
    {
        if length <= SHORT_LENGTH_LIMIT {
            let mut r: Vec<u8> = Vec::new();
            r.push(offset + length as u8);
            r
        } else {
            let mut bytes = big_endian(length);
            proof {
                lemma_be_bytes_len_usize(length as nat);
            }
            let mut r: Vec<u8> = Vec::new();
            r.push(offset + 55 + bytes.len() as u8);
            r.append(&mut bytes);
            r
        }
    }

    /// Appends the encoding of this value to `out`.
    fn encode_into(&self, out: &mut Vec<u8>)
        ensures
            final(out)@ == old(out)@ + encoding(self@),
        decreases self,
    {
        match self {
            RlpEncodable::Binary(v) => {
                if v.len() == 1 && v[0] < BINARY_OFFSET {
                    out.push(v[0]);
                    assert(v@ == seq![v[0]]);
                } else {
                    let mut prefix = RlpEncodable::encode_length(v.len(), BINARY_OFFSET);
                    out.append(&mut prefix);
                    let mut i: usize = 0;
                    let ghost start = out@;
                    while i < v.len()
                        invariant
                            0 <= i <= v.len(),
                            out@ == start + v@.take(i as int),
                        decreases v.len() - i,
                    {
                        out.push(v[i]);
                        assert(v@.take(i + 1) == v@.take(i as int).push(v[i as int]));
                        i = i + 1;
                    }
                    assert(v@.take(v.len() as int) == v@);
                }
            },
            RlpEncodable::List(items) => {
                let ghost views = item_views(items@);
                proof {
                    lemma_item_views(items@);
                }
                let mut payload: Vec<u8> = Vec::new();
                let mut i: usize = 0;
                while i < items.len()
                    invariant
                        0 <= i <= items.len(),
                        views == item_views(items@),
                        *self == RlpEncodable::List(*items),
                        views.len() == items.len(),
                        forall|j: int| 0 <= j < items.len() ==> views[j] == (#[trigger] items@[j])@,
                        payload@ == concat_encodings(views.take(i as int)),
                    decreases items.len() - i,
                {
                    proof {
                        assert(decreases_to!(*items => items@[i as int]));
                        assert(decreases_to!(*self => (*self)->List_0));
                    }
                    items[i].encode_into(&mut payload);
                    assert(views.take(i + 1).drop_last() == views.take(i as int));
                    i = i + 1;
                }
                assert(views.take(items.len() as int) == views);
                let mut prefix = RlpEncodable::encode_length(payload.len(), LIST_OFFSET);
                out.append(&mut prefix);
                out.append(&mut payload);
                assert(self@ == RlpItem::List(views));
            },
        }
    }

    /// The canonical encoding of this value.
    pub fn encode(self) -> (r: RlpDecodable)
        ensures
            r@ == encoding(self@),
    {
        let mut out: Vec<u8> = Vec::new();
        self.encode_into(&mut out);
        assert(out@ == encoding(self@));
        RlpDecodable(out)
    }
}

/// The views of a sequence of values, element by element.
pub proof fn lemma_item_views_of(s: Seq<RlpEncodable>)
    ensures
        item_views(s).len() == s.len(),
        forall|j: int| 0 <= j < s.len() ==> item_views(s)[j] == (#[trigger] s[j])@,
{
    lemma_item_views(s);
}

/// The view of a value, by its variant.
pub proof fn lemma_view_of(x: RlpEncodable)
    ensures
        x@ == item_view(x),
{
}

proof fn lemma_item_views(s: Seq<RlpEncodable>)
    ensures
        item_views(s).len() == s.len(),
        forall|j: int| 0 <= j < s.len() ==> item_views(s)[j] == (#[trigger] s[j])@,
    decreases s.len(),
{
    if s.len() > 0 {
        lemma_item_views(s.drop_last());
        assert forall|j: int| 0 <= j < s.len() implies item_views(s)[j] == (#[trigger] s[j])@ by {
            if j < s.len() - 1 {
                assert(s.drop_last()[j] == s[j]);
            }
        }
    }
}

impl View for RlpDecodable {
    type V = Seq<u8>;

    open spec fn view(&self) -> Seq<u8> {
        self.0@
    }
}

impl RlpDecodable {
    pub fn new(vec: Vec<u8>) -> (r: RlpDecodable)
        ensures
            r@ == vec@,
    {
        RlpDecodable(vec)
    }

    pub fn to_vec(self) -> (r: Vec<u8>)
        ensures
            r@ == self@,
    {
        self.0
    }
}


/// A header of the short form: one byte, then `n` payload bytes.
pub open spec fn short_form(s: Seq<u8>, n: nat, is_list: bool) -> Option<(bool, nat, nat)> {
    if 1 + n > s.len() {
        None
    } else {
        Some((is_list, 1, n))
    }
}

/// A header of the long form: one byte, `ll` bytes of length, then the payload.
pub open spec fn long_form(s: Seq<u8>, ll: nat, is_list: bool) -> Option<(bool, nat, nat)> {
    if 1 + ll > s.len() {
        None
    } else {
        let n = be_value(s.subrange(1, 1 + ll as int));
        if 1 + ll + n > s.len() {
            None
        } else {
            Some((is_list, 1 + ll, n))
        }
    }
}

/// The header at the start of `s`: whether a list follows, the header's
/// length and the payload's length; `None` when they run past `s`.
pub open spec fn header(s: Seq<u8>) -> Option<(bool, nat, nat)> {
    if s.len() == 0 {
        None
    } else {
        let b = s[0];
        if b < 0x80 {
            Some((false, 0, 1))
        } else if b <= 0xb7 {
            short_form(s, (b - 0x80) as nat, false)
        } else if b <= 0xbf {
            long_form(s, (b - 0xb7) as nat, false)
        } else if b <= 0xf7 {
            short_form(s, (b - 0xc0) as nat, true)
        } else {
            long_form(s, (b - 0xf7) as nat, true)
        }
    }
}

/// The value at the start of `s` and the number of bytes it takes.
pub open spec fn parse_item(s: Seq<u8>) -> Option<(RlpItem, nat)>
    decreases s.len(), 0nat,
{
    match header(s) {
        None => None,
        Some((is_list, h, n)) => {
            let payload = s.subrange(h as int, (h + n) as int);
            if !is_list {
                Some((RlpItem::Bytes(payload), h + n))
            } else if h == 0 {
                None
            } else {
                match parse_list(payload) {
                    None => None,
                    Some(items) => Some((RlpItem::List(items), h + n)),
                }
            }
        },
    }
}

/// The values that fill `p` exactly, one after the other.
pub open spec fn parse_list(p: Seq<u8>) -> Option<Seq<RlpItem>>
    decreases p.len(), 1nat,
{
    if p.len() == 0 {
        Some(seq![])
    } else {
        match parse_item(p) {
            None => None,
            Some((x, used)) => if used == 0 || used > p.len() {
                None
            } else {
                match parse_list(p.subrange(used as int, p.len() as int)) {
                    None => None,
                    Some(rest) => Some(seq![x] + rest),
                }
            },
        }
    }
}

/// What decoding the whole of `s` yields.
pub open spec fn decoding(s: Seq<u8>) -> Result<RlpItem, RlpError> {
    match parse_item(s) {
        None => if s.len() == 0 {
            Err(RlpError::TrailingOrTruncatedInput)
        } else {
            Err(RlpError::MalformedLength)
        },
        Some((v, used)) => if used == s.len() {
            Ok(v)
        } else {
            Err(RlpError::TrailingOrTruncatedInput)
        },
    }
}

proof fn lemma_be_value_grows(s: Seq<u8>, j: int)
    requires
        0 <= j < s.len(),
    ensures
        be_value(s.take(j)) <= be_value(s.take(j + 1)),
        be_value(s.take(j + 1)) == be_value(s.take(j)) * 256 + s[j],
{
    assert(s.take(j + 1).drop_last() == s.take(j));
}

proof fn lemma_be_value_mono(s: Seq<u8>, j: int, k: int)
    requires
        0 <= j <= k <= s.len(),
    ensures
        be_value(s.take(j)) <= be_value(s.take(k)),
    decreases k - j,
{
    if j < k {
        lemma_be_value_grows(s, k - 1);
        lemma_be_value_mono(s, j, k - 1);
    }
}

/// Reads `ll` bytes at `start` as a big-endian length; `None` when the
/// length exceeds `limit`.
fn read_length(bytes: &Vec<u8>, start: usize, ll: usize, limit: usize) -> (r: Option<usize>)
    requires
        start + ll <= bytes.len(),
    ensures
        match r {
            None => be_value(bytes@.subrange(start as int, start + ll)) > limit,
            Some(n) => n == be_value(bytes@.subrange(start as int, start + ll)) && n <= limit,
        },
{
    let ghost t = bytes@.subrange(start as int, start + ll);
    let mut n: usize = 0;
    let mut j: usize = 0;
    assert(t.take(0) =~= seq![]);
    while j < ll
        invariant
            j <= ll,
            start + ll <= bytes.len(),
            t == bytes@.subrange(start as int, start + ll),
            n == be_value(t.take(j as int)),
            n <= limit,
        decreases ll - j,
    {
        proof {
            lemma_be_value_grows(t, j as int);
            lemma_be_value_mono(t, j as int + 1, ll as int);
        }
        let b = bytes[start + j];
        assert(t[j as int] == b);
        if n > limit / 256 {
            assert(n * 256 > limit) by (nonlinear_arith)
                requires
                    n > limit / 256,
            ;
            assert(t.take(ll as int) == t);
            return None;
        }
        assert(n * 256 <= limit) by (nonlinear_arith)
            requires
                n <= limit / 256,
        ;
        let m = n * 256;
        if b as usize > limit - m {
            assert(t.take(ll as int) == t);
            return None;
        }
        n = m + b as usize;
        j = j + 1;
    }
    assert(t.take(ll as int) == t);
    Some(n)
}

/// Reads the header at `pos` of `bytes[pos..end]`.
fn read_header(bytes: &Vec<u8>, pos: usize, end: usize) -> (r: Option<(bool, usize, usize)>)
    requires
        pos <= end <= bytes.len(),
    ensures
        match r {
            None => header(bytes@.subrange(pos as int, end as int)) is None,
            Some((l, h, n)) => header(bytes@.subrange(pos as int, end as int)) == Some(
                (l, h as nat, n as nat),
            ),
        },
{
    let ghost s = bytes@.subrange(pos as int, end as int);
    if pos == end {
        return None;
    }
    let b = bytes[pos];
    assert(s[0] == b);
    let avail: usize = end - pos - 1;
    if b < BINARY_OFFSET {
        Some((false, 0, 1))
    } else if b <= 0xb7 || (b >= LIST_OFFSET && b <= 0xf7) {
        let is_list = b >= LIST_OFFSET;
        let n: usize = if is_list {
            (b - LIST_OFFSET) as usize
        } else {
            (b - BINARY_OFFSET) as usize
        };
        if n > avail {
            None
        } else {
            Some((is_list, 1, n))
        }
    } else {
        let is_list = b > 0xf7;
        let ll: usize = if is_list {
            (b - 0xf7) as usize
        } else {
            (b - 0xb7) as usize
        };
        if ll > avail {
            return None;
        }
        assert(s.subrange(1, 1 + ll as int) == bytes@.subrange(pos + 1, pos + 1 + ll));
        match read_length(bytes, pos + 1, ll, avail - ll) {
            None => None,
            Some(n) => Some((is_list, 1 + ll, n)),
        }
    }
}


/// A copy of `v[from..to]`.
pub fn copy_slice(v: &Vec<u8>, from: usize, to: usize) -> (r: Vec<u8>)
    requires
        from <= to <= v.len(),
    ensures
        r@ == v@.subrange(from as int, to as int),
        from == 0 && to == v.len() ==> r@ == v@,
{
    let mut r: Vec<u8> = Vec::new();
    let mut i: usize = from;
    while i < to
        invariant
            from <= i <= to <= v.len(),
            r@ == v@.subrange(from as int, i as int),
        decreases to - i,
    {
        r.push(v[i]);
        assert(r@ =~= v@.subrange(from as int, i + 1));
        i = i + 1;
    }
    assert(from == 0 && to == v.len() ==> v@.subrange(from as int, to as int) == v@);
    r
}

impl RlpDecodable {
    /// Decodes the value at the start of `bytes[pos..end]`, with the number
    /// of bytes it takes.
    fn decode_item(bytes: &Vec<u8>, pos: usize, end: usize) -> (r: Option<(RlpEncodable, usize)>)
        requires
            pos <= end <= bytes.len(),
        ensures
            match r {
                None => parse_item(bytes@.subrange(pos as int, end as int)) is None,
                Some((v, used)) => parse_item(bytes@.subrange(pos as int, end as int)) == Some(
                    (v@, used as nat),
                ),
            },
        decreases end - pos, 0nat,
    {
        let ghost s = bytes@.subrange(pos as int, end as int);
        match read_header(bytes, pos, end) {
            None => None,
            Some((is_list, h, n)) => {
                let start = pos + h;
                let stop = start + n;
                assert(s.subrange(h as int, (h + n) as int) == bytes@.subrange(
                    start as int,
                    stop as int,
                ));
                if !is_list {
                    let payload = copy_slice(bytes, start, stop);
                    Some((RlpEncodable::Binary(payload), h + n))
                } else {
                    match RlpDecodable::decode_items(bytes, start, stop) {
                        None => None,
                        Some(items) => {
                            let v = RlpEncodable::List(items);
                            Some((v, h + n))
                        },
                    }
                }
            },
        }
    }

    /// Decodes the values that fill `bytes[start..stop]` exactly.
    fn decode_items(bytes: &Vec<u8>, start: usize, stop: usize) -> (r: Option<Vec<RlpEncodable>>)
        requires
            start <= stop <= bytes.len(),
        ensures
            match r {
                None => parse_list(bytes@.subrange(start as int, stop as int)) is None,
                Some(items) => parse_list(bytes@.subrange(start as int, stop as int)) == Some(
                    item_views(items@),
                ),
            },
        decreases stop - start, 1nat,
    {
        let mut items: Vec<RlpEncodable> = Vec::new();
        let mut at: usize = start;
        let ghost whole = bytes@.subrange(start as int, stop as int);
        while at < stop
            invariant
                start <= at <= stop <= bytes.len(),
                whole == bytes@.subrange(start as int, stop as int),
                match parse_list(bytes@.subrange(at as int, stop as int)) {
                    None => parse_list(whole) is None,
                    Some(rest) => parse_list(whole) == Some(item_views(items@) + rest),
                },
            decreases stop - at,
        {
            let ghost cur = bytes@.subrange(at as int, stop as int);
            match RlpDecodable::decode_item(bytes, at, stop) {
                None => {
                    return None;
                },
                Some((x, used)) => {
                    if used == 0 {
                        return None;
                    }
                    assert(cur.subrange(used as int, cur.len() as int) == bytes@.subrange(
                        at + used,
                        stop as int,
                    ));
                    proof {
                        lemma_item_views(items@);
                        lemma_item_views(items@.push(x));
                        assert(items@.push(x).drop_last() == items@);
                        assert(item_views(items@.push(x)) == item_views(items@) + seq![x@]);
                        match parse_list(bytes@.subrange(at + used, stop as int)) {
                            None => {},
                            Some(rest) => {
                                assert(item_views(items@.push(x)) + rest == item_views(items@) + (
                                seq![x@] + rest));
                            },
                        }
                    }
                    items.push(x);
                    at = at + used;
                },
            }
        }
        proof {
            assert(item_views(items@) + seq![] == item_views(items@));
        }
        Some(items)
    }

    /// Decodes the whole byte sequence as one value.
    pub fn decode(self) -> (r: Result<RlpEncodable, RlpError>)
        ensures
            match r {
                Ok(v) => decoding(self@) == Ok::<RlpItem, RlpError>(v@),
                Err(e) => decoding(self@) == Err::<RlpItem, RlpError>(e),
            },
    {
        let bytes = self.to_vec();
        let len = bytes.len();
        assert(bytes@.subrange(0, len as int) == bytes@);
        if len == 0 {
            return Err(RlpError::TrailingOrTruncatedInput);
        }
        match RlpDecodable::decode_item(&bytes, 0, len) {
            None => Err(RlpError::MalformedLength),
            Some((v, used)) => if used == len {
                Ok(v)
            } else {
                Err(RlpError::TrailingOrTruncatedInput)
            },
        }
    }
}


proof fn lemma_be_round_trip(n: nat)
    ensures
        be_value(be_bytes(n)) == n,
    decreases n,
{
    if n > 0 {
        lemma_be_round_trip(n / 256);
        assert(be_bytes(n).drop_last() == be_bytes(n / 256));
    }
}

proof fn lemma_header_of_prefix(n: nat, base: u8, t: Seq<u8>)
    requires
        base == BINARY_OFFSET || base == LIST_OFFSET,
        n <= usize::MAX,
        t.len() >= n,
        base == BINARY_OFFSET && n == 1 ==> t[0] >= 0x80,
    ensures
        header(length_prefix(n, base) + t) == Some(
            (base == LIST_OFFSET, length_prefix(n, base).len(), n),
        ),
        length_prefix(n, base).len() >= 1,
{
    let s = length_prefix(n, base) + t;
    if n > 55 {
        lemma_be_bytes_len_usize(n);
        lemma_be_round_trip(n);
        let k = be_bytes(n).len();
        assert(s.subrange(1, 1 + k as int) == be_bytes(n));
    }
}

proof fn lemma_concat_front(x: RlpItem, rest: Seq<RlpItem>)
    ensures
        concat_encodings(seq![x] + rest) == encoding(x) + concat_encodings(rest),
    decreases rest.len(),
{
    if rest.len() == 0 {
        assert(seq![x] + rest == seq![x]);
        assert(seq![x].drop_last() == Seq::<RlpItem>::empty());
        assert(encoding(x) + seq![] == encoding(x));
        assert(Seq::<u8>::empty() + encoding(x) == encoding(x));
        assert(seq![x].last() == x);
        assert(concat_encodings(Seq::<RlpItem>::empty()) == Seq::<u8>::empty());
        assert(concat_encodings(seq![x]) == encoding(x));
    } else {
        lemma_concat_front(x, rest.drop_last());
        assert((seq![x] + rest).drop_last() == seq![x] + rest.drop_last());
        assert((seq![x] + rest).last() == rest.last());
        let a = encoding(x);
        let b = concat_encodings(rest.drop_last());
        let c = encoding(rest.last());
        assert((a + b) + c == a + (b + c));
    }
}

proof fn lemma_encoding_nonempty(x: RlpItem)
    ensures
        encoding(x).len() >= 1,
{
}

proof fn lemma_parse_encoding(x: RlpItem, rest: Seq<u8>)
    requires
        encoding(x).len() <= usize::MAX,
    ensures
        parse_item(encoding(x) + rest) == Some((x, encoding(x).len())),
    decreases x,
{
    let s = encoding(x) + rest;
    match x {
        RlpItem::Bytes(b) => {
            if b.len() == 1 && b[0] < 0x80 {
                assert(s.subrange(0, 1) == b);
            } else {
                lemma_header_of_prefix(b.len(), BINARY_OFFSET, b + rest);
                assert(s == length_prefix(b.len(), BINARY_OFFSET) + (b + rest));
                let h = length_prefix(b.len(), BINARY_OFFSET).len();
                assert(s.subrange(h as int, (h + b.len()) as int) == b);
            }
        },
        RlpItem::List(items) => {
            let p = concat_encodings(items);
            lemma_header_of_prefix(p.len(), LIST_OFFSET, p + rest);
            assert(s == length_prefix(p.len(), LIST_OFFSET) + (p + rest));
            let h = length_prefix(p.len(), LIST_OFFSET).len();
            assert(s.subrange(h as int, (h + p.len()) as int) == p);
            lemma_parse_encodings(items);
        },
    }
}

proof fn lemma_parse_encodings(items: Seq<RlpItem>)
    requires
        concat_encodings(items).len() <= usize::MAX,
    ensures
        parse_list(concat_encodings(items)) == Some(items),
    decreases items,
{
    if items.len() > 0 {
        let x = items[0];
        let tail = items.subrange(1, items.len() as int);
        assert(items == seq![x] + tail);
        lemma_concat_front(x, tail);
        let p = concat_encodings(items);
        let t = concat_encodings(tail);
        lemma_encoding_nonempty(x);
        lemma_parse_encoding(x, t);
        assert(p.subrange(encoding(x).len() as int, p.len() as int) == t);
        lemma_parse_encodings(tail);
    }
}

/// Decoding the encoding of any value gives the value back.
pub proof fn lemma_round_trip(x: RlpItem)
    requires
        encoding(x).len() <= usize::MAX,
    ensures
        decoding(encoding(x)) == Ok::<RlpItem, RlpError>(x),
{
    lemma_parse_encoding(x, seq![]);
    assert(encoding(x) + seq![] == encoding(x));
}


/// A single byte below `0x80` encodes as itself, with no header.
pub proof fn lemma_single_byte(b: u8)
    requires
        b < 0x80,
    ensures
        encoding(RlpItem::Bytes(seq![b])) == seq![b],
{
}

/// A payload of 55 bytes takes the one-byte header; one of 56 bytes takes
/// the long header with a single length byte.
pub proof fn lemma_length_boundary(b: Seq<u8>, items: Seq<RlpItem>)
    ensures
        b.len() == 55 ==> encoding(RlpItem::Bytes(b)) == seq![0xb7u8] + b,
        b.len() == 56 ==> encoding(RlpItem::Bytes(b)) == seq![0xb8u8, 0x38u8] + b,
        concat_encodings(items).len() == 55 ==> encoding(RlpItem::List(items)) == seq![0xf7u8]
            + concat_encodings(items),
        concat_encodings(items).len() == 56 ==> encoding(RlpItem::List(items)) == seq![
            0xf8u8,
            0x38u8,
        ] + concat_encodings(items),
{
    reveal_with_fuel(be_bytes, 3);
    assert(be_bytes(56) == seq![56u8]);
}

} // verus!
