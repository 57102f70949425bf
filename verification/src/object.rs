use vstd::prelude::*;
use vstd::slice::slice_subrange;
use crate::incremental::Outcome;
use crate::incremental::Parsed;
use crate::incremental::feed;
use crate::parsers::Bytes;
use crate::parsers::NoError;
use crate::hash::Hasher;
use crate::hash::sha1_of;

verus! {

/// The four object kinds of the content store.
#[derive(Copy, Clone, Debug, Eq, PartialEq, Structural)]
pub enum ObjectKind {
    Commit,
    Tree,
    Blob,
    Tag,
}

impl ObjectKind {
    /// The canonical lowercase name, as the ASCII bytes that open the hash
    /// preimage.
    pub open spec fn spec_name(self) -> Seq<u8> {
        match self {
            ObjectKind::Commit => seq![99u8, 111u8, 109u8, 109u8, 105u8, 116u8],
            ObjectKind::Tree => seq![116u8, 114u8, 101u8, 101u8],
            ObjectKind::Blob => seq![98u8, 108u8, 111u8, 98u8],
            ObjectKind::Tag => seq![116u8, 97u8, 103u8],
        }
    }

    /// The canonical lowercase name, as characters.
    pub open spec fn spec_name_chars(self) -> Seq<char> {
        match self {
            ObjectKind::Commit => seq!['c', 'o', 'm', 'm', 'i', 't'],
            ObjectKind::Tree => seq!['t', 'r', 'e', 'e'],
            ObjectKind::Blob => seq!['b', 'l', 'o', 'b'],
            ObjectKind::Tag => seq!['t', 'a', 'g'],
        }
    }

    /// The canonical lowercase name.
    pub fn name(&self) -> (r: &'static str)
        ensures
            r@ == self.spec_name_chars(),
    {
        proof {
            reveal_strlit("commit");
            reveal_strlit("tree");
            reveal_strlit("blob");
            reveal_strlit("tag");
        }
        match *self {
            ObjectKind::Commit => "commit",
            ObjectKind::Tree => "tree",
            ObjectKind::Blob => "blob",
            ObjectKind::Tag => "tag",
        }
    }

    /// The canonical lowercase name, as bytes.
    pub fn name_bytes(&self) -> (r: Vec<u8>)
        ensures
            r@ == self.spec_name(),
    {
        let mut out: Vec<u8> = Vec::new();
        match *self {
            ObjectKind::Commit => {
                out.push(99);
                out.push(111);
                out.push(109);
                out.push(109);
                out.push(105);
                out.push(116);
            }
            ObjectKind::Tree => {
                out.push(116);
                out.push(114);
                out.push(101);
                out.push(101);
            }
            ObjectKind::Blob => {
                out.push(98);
                out.push(108);
                out.push(111);
                out.push(98);
            }
            ObjectKind::Tag => {
                out.push(116);
                out.push(97);
                out.push(103);
            }
        }
        proof {
            assert(out@ =~= self.spec_name());
        }
        out
    }
}

/// An object's metadata: its kind and the byte length of its content.
#[derive(Copy, Clone, Debug, Eq, PartialEq, Structural)]
pub struct ObjectHeader {
    pub kind: ObjectKind,
    pub size: u64,
}

/// A 20-byte content-addressed object identifier. Equality, order and hex
/// rendering are bitwise over the byte array.
#[derive(Copy, Clone, Debug, Eq, PartialEq, Ord, PartialOrd, Hash)]
pub struct ObjectId(pub [u8; 20]);

impl View for ObjectId {
    type V = Seq<u8>;

    open spec fn view(&self) -> Seq<u8> {
        self.0@
    }
}

/// The lowercase hex digit for a value below 16.
pub open spec fn hex_digit(n: u8) -> u8 {
    if n < 10 {
        (0x30 + n) as u8
    } else {
        (0x57 + n) as u8
    }
}

/// Two lowercase hex digits per byte, no separator.
pub open spec fn hex_of(s: Seq<u8>) -> Seq<u8> {
    Seq::new(2 * s.len(), |j: int| if j % 2 == 0 {
        hex_digit((s[j / 2] >> 4) as u8)
    } else {
        hex_digit((s[j / 2] & 0x0f) as u8)
    })
}

/// Is `c` a lowercase hex digit?
pub open spec fn is_hex_digit(c: u8) -> bool {
    (0x30 <= c && c <= 0x39) || (0x61 <= c && c <= 0x66)
}

/// The value of a lowercase hex digit.
pub open spec fn hex_val(c: u8) -> u8
    recommends
        is_hex_digit(c),
{
    if c <= 0x39 {
        (c - 0x30) as u8
    } else {
        (c - 0x57) as u8
    }
}

/// The bytes denoted by a 40-digit lowercase hex string, or nothing if the
/// input is not exactly that.
pub open spec fn from_hex_spec(h: Seq<u8>) -> Option<Seq<u8>> {
    if h.len() == 40 && (forall|j: int| 0 <= j < 40 ==> is_hex_digit(#[trigger] h[j])) {
        Some(Seq::new(20, |i: int| (hex_val(h[2 * i]) * 16 + hex_val(h[2 * i + 1])) as u8))
    } else {
        None
    }
}

/// A byte is its high nibble shifted up plus its low nibble.
proof fn lemma_nibbles(x: u8)
    by (bit_vector)
    ensures
        (x >> 4) < 16,
        (x & 0x0f) < 16,
        ((x >> 4) * 16 + (x & 0x0f)) == x,
{
}

impl ObjectId {
    /// Render as 40 lowercase hex characters (as ASCII bytes).
    pub fn to_hex(&self) -> (r: Vec<u8>)
        ensures
            r@ == hex_of(self@),
    {
        let mut out: Vec<u8> = Vec::with_capacity(40);
        let mut i: usize = 0;
        while i < 20
            invariant
                i <= 20,
                out@ == hex_of(self@).take(2 * i as int),
            decreases 20 - i,
        {
            let b = self.0[i];
            proof {
                lemma_nibbles(b);
            }
            out.push(hex_digit_exec(b >> 4));
            out.push(hex_digit_exec(b & 0x0f));
            proof {
                assert(out@ =~= hex_of(self@).take(2 * (i + 1)));
            }
            i = i + 1;
        }
        proof {
            assert(hex_of(self@).take(40) =~= hex_of(self@));
        }
        out
    }

    /// Read an id back from 40 lowercase hex characters; anything else is
    /// rejected.
    pub fn from_hex(h: &[u8]) -> (r: Option<ObjectId>)
        ensures
            match r {
                Some(id) => from_hex_spec(h@) == Some(id@),
                None => from_hex_spec(h@) is None,
            },
    {
        if h.len() != 40 {
            return None;
        }
        let mut out = [0u8; 20];
        let mut i: usize = 0;
        while i < 20
            invariant
                i <= 20,
                h@.len() == 40,
                forall|j: int| 0 <= j < 2 * i ==> is_hex_digit(#[trigger] h@[j]),
                forall|k: int|
                    0 <= k < i ==> #[trigger] out@[k] == (hex_val(h@[2 * k]) * 16 + hex_val(
                        h@[2 * k + 1],
                    )) as u8,
            decreases 20 - i,
        {
            let c1 = hex_val_exec(h[2 * i]);
            let c2 = hex_val_exec(h[2 * i + 1]);
            match (c1, c2) {
                (Some(hi), Some(lo)) => {
                    out[i] = hi * 16 + lo;
                }
                _ => {
                    return None;
                }
            }
            i = i + 1;
        }
        let r = ObjectId(out);
        proof {
            let s = Seq::new(20, |k: int| (hex_val(h@[2 * k]) * 16 + hex_val(h@[2 * k + 1])) as u8);
            assert(out@ =~= s);
        }
        Some(r)
    }

    /// Strict bitwise (lexicographic) order on ids.
    pub fn lt(&self, other: &ObjectId) -> (r: bool)
        ensures
            r == bytes_lt(self@, other@),
    {
        proof {
            assert(self@.skip(0) =~= self@);
            assert(other@.skip(0) =~= other@);
        }
        let mut i: usize = 0;
        while i < 20
            invariant
                i <= 20,
                bytes_lt(self@, other@) == bytes_lt(self@.skip(i as int), other@.skip(i as int)),
            decreases 20 - i,
        {
            let x = self.0[i];
            let y = other.0[i];
            proof {
                assert(self@.skip(i as int).first() == x);
                assert(other@.skip(i as int).first() == y);
                assert(self@.skip(i as int).drop_first() =~= self@.skip(i + 1));
                assert(other@.skip(i as int).drop_first() =~= other@.skip(i + 1));
            }
            if x < y {
                return true;
            }
            if x > y {
                return false;
            }
            i = i + 1;
        }
        false
    }

    /// Bitwise equality test on ids.
    pub fn same(&self, other: &ObjectId) -> (r: bool)
        ensures
            r == (self@ == other@),
    {
        let mut i: usize = 0;
        while i < 20
            invariant
                i <= 20,
                self@.take(i as int) == other@.take(i as int),
            decreases 20 - i,
        {
            if self.0[i] != other.0[i] {
                proof {
                    assert(self@[i as int] != other@[i as int]);
                }
                return false;
            }
            proof {
                assert(self@.take(i + 1) =~= self@.take(i as int).push(self@[i as int]));
                assert(other@.take(i + 1) =~= other@.take(i as int).push(other@[i as int]));
            }
            i = i + 1;
        }
        proof {
            assert(self@.take(20) =~= self@);
            assert(other@.take(20) =~= other@);
        }
        true
    }
}

/// Hex round trip: rendering an id and reading it back gives the id.
pub proof fn lemma_hex_round_trip(x: ObjectId)
    ensures
        from_hex_spec(hex_of(x@)) == Some(x@),
{
    let h = hex_of(x@);
    assert(h.len() == 40);
    assert forall|j: int| 0 <= j < 40 implies is_hex_digit(#[trigger] h[j]) by {
        lemma_nibbles(x@[j / 2]);
    }
    let s = Seq::new(20, |i: int| (hex_val(h[2 * i]) * 16 + hex_val(h[2 * i + 1])) as u8);
    assert(from_hex_spec(h) == Some(s));
    assert forall|i: int| 0 <= i < 20 implies s[i] == x@[i] by {
        lemma_nibbles(x@[i]);
        assert(h[2 * i] == hex_digit((x@[i] >> 4) as u8));
        assert(h[2 * i + 1] == hex_digit((x@[i] & 0x0f) as u8));
    }
    assert(s =~= x@);
}

/// The lowercase hex digit for a value below 16.
fn hex_digit_exec(n: u8) -> (r: u8)
    requires
        n < 16,
    ensures
        r == hex_digit(n),
{
    if n < 10 {
        0x30 + n
    } else {
        0x57 + n
    }
}

/// The value of a lowercase hex digit, or nothing for any other byte.
fn hex_val_exec(c: u8) -> (r: Option<u8>)
    ensures
        match r {
            Some(v) => is_hex_digit(c) && v == hex_val(c),
            None => !is_hex_digit(c),
        },
{
    if 0x30 <= c && c <= 0x39 {
        Some(c - 0x30)
    } else if 0x61 <= c && c <= 0x66 {
        Some(c - 0x57)
    } else {
        None
    }
}

/// Strict lexicographic order on equal-length byte strings.
pub open spec fn bytes_lt(a: Seq<u8>, b: Seq<u8>) -> bool
    decreases a.len(),
{
    if a.len() == 0 || b.len() == 0 {
        false
    } else if a.first() != b.first() {
        a.first() < b.first()
    } else {
        bytes_lt(a.drop_first(), b.drop_first())
    }
}

/// Of two equal-length byte strings, exactly one of `a < b`, `a == b`,
/// `b < a` holds.
pub proof fn lemma_bytes_lt_trichotomy(a: Seq<u8>, b: Seq<u8>)
    requires
        a.len() == b.len(),
    ensures
        bytes_lt(a, b) || bytes_lt(b, a) || a == b,
        bytes_lt(a, b) ==> !bytes_lt(b, a) && a != b,
    decreases a.len(),
{
    if a.len() == 0 {
        assert(a =~= b);
    } else if a.first() == b.first() {
        lemma_bytes_lt_trichotomy(a.drop_first(), b.drop_first());
        if a.drop_first() == b.drop_first() {
            assert forall|i: int| 0 <= i < a.len() implies a[i] == b[i] by {
                if i > 0 {
                    assert(a[i] == a.drop_first()[i - 1]);
                    assert(b[i] == b.drop_first()[i - 1]);
                }
            }
            assert(a =~= b);
        }
        if a == b {
            assert(a.drop_first() =~= b.drop_first());
        }
    }
}

/// Lexicographic order is transitive.
pub proof fn lemma_bytes_lt_trans(a: Seq<u8>, b: Seq<u8>, c: Seq<u8>)
    requires
        a.len() == b.len(),
        b.len() == c.len(),
        bytes_lt(a, b),
        bytes_lt(b, c),
    ensures
        bytes_lt(a, c),
    decreases a.len(),
{
    if a.first() == b.first() && b.first() == c.first() {
        lemma_bytes_lt_trans(a.drop_first(), b.drop_first(), c.drop_first());
    }
}

/// Incremental parser for a raw 20-byte object id.
#[derive(Clone, Copy, Debug, Eq, PartialEq)]
pub struct ObjectIdParser(pub Bytes<20>);

impl Default for ObjectIdParser {
    /// A fresh parser: no bytes gathered yet.
    fn default() -> (r: ObjectIdParser)
        ensures
            r.0.partial() == Seq::<u8>::empty(),
            r.0.wf(),
    {
        ObjectIdParser(Bytes::default())
    }
}

impl ObjectIdParser {
    /// Gather 20 bytes; the reference semantics is the 20-byte accumulator's.
    pub fn parse<'a>(self, buf: &'a [u8]) -> (r: Parsed<'a, ObjectIdParser, ObjectId, NoError>)
        requires
            self.0.wf(),
        ensures
            ({
                let o = feed(Bytes::<20>::step_fn(), self.0.partial(), buf@);
                match r {
                    Parsed::Incomplete(p) => p.0.wf() && o == Outcome::<Seq<u8>, Seq<u8>, NoError>::Incomplete(p.0.partial()),
                    Parsed::Done(v, tail) => o == Outcome::<Seq<u8>, Seq<u8>, NoError>::Done(v@, tail@),
                    Parsed::Failed(e) => o == Outcome::<Seq<u8>, Seq<u8>, NoError>::Fail(e),
                }
            }),
    {
        match self.0.parse(buf) {
            Parsed::Incomplete(p) => Parsed::Incomplete(ObjectIdParser(p)),
            Parsed::Done(v, tail) => Parsed::Done(ObjectId(v), tail),
            Parsed::Failed(e) => Parsed::Failed(e),
        }
    }
}

/// The byte and character renderings of a kind's name agree.
pub proof fn lemma_name_bytes_match(k: ObjectKind)
    ensures
        k.spec_name() == k.spec_name_chars().map_values(|c: char| c as u8),
{
    assert(k.spec_name() =~= k.spec_name_chars().map_values(|c: char| c as u8));
}

/// The decimal ASCII rendering of a number: no padding, no leading zeros.
pub open spec fn decimal_of(n: nat) -> Seq<u8>
    decreases n,
{
    if n < 10 {
        seq![(0x30 + n) as u8]
    } else {
        decimal_of(n / 10).push((0x30 + n % 10) as u8)
    }
}

/// Render a value in decimal ASCII.
pub fn decimal_bytes(v: u64) -> (r: Vec<u8>)
    ensures
        r@ == decimal_of(v as nat),
{
    let mut digits: Vec<u8> = Vec::new();
    let mut rest: u64 = v;
    proof {
        assert(digits@.reverse() =~= Seq::<u8>::empty());
        assert(decimal_of(v as nat) + digits@.reverse() =~= decimal_of(v as nat));
    }
    while rest >= 10
        invariant
            decimal_of(v as nat) == decimal_of(rest as nat) + digits@.reverse(),
        decreases rest,
    {
        let b: u8 = 0x30 + ((rest % 10) as u8);
        let ghost prev = digits@;
        digits.push(b);
        proof {
            assert(digits@.reverse() =~= seq![b] + prev.reverse());
            assert(decimal_of(rest as nat) =~= decimal_of((rest / 10) as nat) + seq![b]);
            assert(decimal_of((rest / 10) as nat) + digits@.reverse() =~= decimal_of(
                rest as nat,
            ) + prev.reverse());
        }
        rest = rest / 10;
    }
    let b: u8 = 0x30 + (rest as u8);
    let ghost prev = digits@;
    digits.push(b);
    proof {
        assert(decimal_of(rest as nat) =~= seq![b]);
        assert(digits@.reverse() =~= seq![b] + prev.reverse());
        assert(decimal_of(v as nat) =~= digits@.reverse());
    }
    let mut out: Vec<u8> = Vec::new();
    let n = digits.len();
    let mut j: usize = n;
    while j > 0
        invariant
            j <= n,
            n == digits@.len(),
            decimal_of(v as nat) == digits@.reverse(),
            out@ == digits@.reverse().take((n - j) as int),
        decreases j,
    {
        j = j - 1;
        out.push(digits[j]);
        proof {
            assert(digits@.reverse()[(n - j - 1) as int] == digits@[j as int]);
            assert(out@ =~= digits@.reverse().take((n - j) as int));
        }
    }
    proof {
        assert(digits@.reverse().take(n as int) =~= digits@.reverse());
    }
    out
}

/// The canonical hash preimage prefix `"<kind> <size>\0"`, with the size
/// in decimal.
pub open spec fn preimage(h: ObjectHeader) -> Seq<u8> {
    h.kind.spec_name() + seq![32u8] + decimal_of(h.size as nat) + seq![0u8]
}

/// Streaming object hasher: seeded with the canonical `"<kind> <size>\0"`
/// preimage prefix, then fed the object's content. Its view is the whole
/// byte string hashed so far, prefix included.
pub struct ObjectHasher(Hasher);

impl View for ObjectHasher {
    type V = Seq<u8>;

    closed spec fn view(&self) -> Seq<u8> {
        self.0@
    }
}

impl ObjectHasher {
    /// A hasher seeded with the canonical preimage prefix for `header`.
    pub fn new(header: ObjectHeader) -> (r: ObjectHasher)
        ensures
            r@ == preimage(header),
    {
        let mut h = Hasher::new();
        let mut prefix = header.kind.name_bytes();
        prefix.push(32);
        let mut dec = decimal_bytes(header.size);
        prefix.append(&mut dec);
        prefix.push(0);
        h.update(prefix.as_slice());
        proof {
            assert(h@ =~= preimage(header));
        }
        ObjectHasher(h)
    }

    /// Feed content bytes.
    pub fn update(&mut self, buffer: &[u8])
        ensures
            final(self)@ == old(self)@ + buffer@,
    {
        self.0.update(buffer)
    }

    /// The object's content-addressed id.
    pub fn digest(self) -> (r: ObjectId)
        ensures
            r@ == sha1_of(self@),
    {
        ObjectId(self.0.digest())
    }
}

} // verus!
