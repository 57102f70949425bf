use vstd::prelude::*;
use vstd::slice::slice_subrange;
use crate::incremental::Step;
use crate::incremental::Outcome;
use crate::incremental::Parsed;
use crate::incremental::feed;
use crate::incremental::lemma_split;
use crate::incremental::lemma_feed_one;
use crate::incremental::lemma_feed_snoc;
use crate::parsers::Bytes;
use crate::parsers::Leb128;
use crate::shl::shl64_in_range;
use crate::shl::shl64;
use crate::shl::safe_shl_u64;
use crate::object::ObjectKind;
use crate::object::ObjectHeader;
use crate::object::ObjectId;
use crate::object::ObjectIdParser;

verus! {

/// The pack's fixed header: how many entries follow.
#[derive(Copy, Clone, Debug, Eq, PartialEq, Structural)]
pub struct FileHeader {
    pub count: u32,
}

/// The first eight bytes did not match the pack tag.
#[derive(Copy, Clone, Debug, Eq, PartialEq)]
pub struct InvalidFileHeader;

/// The entry header opened with a reserved kind nibble, or its size varint
/// overflowed.
#[derive(Copy, Clone, Debug, Eq, PartialEq)]
pub struct InvalidEntryHeader;

/// The offset-delta base overflowed during assembly.
#[derive(Copy, Clone, Debug, Eq, PartialEq)]
pub struct InvalidDeltaHeader;

/// The eight-byte literal that opens every version-2 pack.
pub open spec fn file_tag() -> Seq<u8> {
    seq![0x50u8, 0x41u8, 0x43u8, 0x4bu8, 0u8, 0u8, 0u8, 2u8]
}

/// The big-endian 32-bit value of four bytes.
pub open spec fn be_u32(s: Seq<u8>) -> u32
    recommends
        s.len() == 4,
{
    (((s[0] as nat) * 0x1000000 + (s[1] as nat) * 0x10000 + (s[2] as nat) * 0x100 + (
    s[3] as nat))) as u32
}

/// Incremental parser for the pack file header: the eight-byte tag, then a
/// big-endian entry count.
#[derive(Clone, Copy, Debug, Eq, PartialEq)]
pub struct FileHeaderParser(pub FileHeaderParserState);

#[derive(Clone, Copy, Debug, Eq, PartialEq)]
pub enum FileHeaderParserState {
    /// So many bytes of the tag already matched.
    Tag(usize),
    /// The tag matched; gathering the four count bytes.
    Count(Bytes<4>),
}

/// Specification-level state of the file header parser.
pub enum FileSt {
    Tag(int),
    Count(Seq<u8>),
}

impl View for FileHeaderParser {
    type V = FileSt;

    open spec fn view(&self) -> FileSt {
        match self.0 {
            FileHeaderParserState::Tag(n) => FileSt::Tag(n as int),
            FileHeaderParserState::Count(p) => FileSt::Count(p.partial()),
        }
    }
}

impl Default for FileHeaderParser {
    /// A fresh parser: nothing matched yet.
    fn default() -> (r: FileHeaderParser)
        ensures
            r@ == FileSt::Tag(0),
            r.wf(),
    {
        FileHeaderParser(FileHeaderParserState::Tag(0))
    }
}

/// One byte of the file header: match the next tag byte, then accumulate
/// the four count bytes.
pub open spec fn file_step(st: FileSt, b: u8) -> Step<FileSt, FileHeader, InvalidFileHeader> {
    match st {
        FileSt::Tag(n) => {
            if !(0 <= n < 8) {
                Step::Fail(InvalidFileHeader)
            } else if b != file_tag()[n] {
                Step::Fail(InvalidFileHeader)
            } else if n == 7 {
                Step::More(FileSt::Count(Seq::empty()))
            } else {
                Step::More(FileSt::Tag(n + 1))
            }
        }
        FileSt::Count(acc) => {
            let acc2 = acc.push(b);
            if acc2.len() == 4 {
                Step::Done(FileHeader { count: be_u32(acc2) })
            } else {
                Step::More(FileSt::Count(acc2))
            }
        }
    }
}

pub open spec fn file_step_fn() -> spec_fn(FileSt, u8) -> Step<FileSt, FileHeader, InvalidFileHeader> {
    |st: FileSt, b: u8| file_step(st, b)
}

/// The tag byte at a given position.
fn tag_byte(n: usize) -> (r: u8)
    requires
        n < 8,
    ensures
        r == file_tag()[n as int],
{
    match n {
        0 => 0x50,
        1 => 0x41,
        2 => 0x43,
        3 => 0x4b,
        7 => 2,
        _ => 0,
    }
}

impl FileHeaderParser {
    pub open spec fn wf(self) -> bool {
        match self.0 {
            FileHeaderParserState::Tag(n) => n < 8,
            FileHeaderParserState::Count(p) => p.wf(),
        }
    }

    /// One transition of the file header parser.
    fn step_exec(st: FileHeaderParserState, b: u8) -> (r: Step<
        FileHeaderParserState,
        FileHeader,
        InvalidFileHeader,
    >)
        requires
            FileHeaderParser(st).wf(),
        ensures
            match r {
                Step::More(s2) => FileHeaderParser(s2).wf() && file_step(FileHeaderParser(st)@, b)
                    == Step::<FileSt, FileHeader, InvalidFileHeader>::More(FileHeaderParser(s2)@),
                Step::Done(v) => file_step(FileHeaderParser(st)@, b) == Step::<
                    FileSt,
                    FileHeader,
                    InvalidFileHeader,
                >::Done(v),
                Step::Fail(e) => file_step(FileHeaderParser(st)@, b) == Step::<
                    FileSt,
                    FileHeader,
                    InvalidFileHeader,
                >::Fail(e),
            },
    {
        match st {
            FileHeaderParserState::Tag(n) => {
                if b != tag_byte(n) {
                    Step::Fail(InvalidFileHeader)
                } else if n == 7 {
                    let fresh: Bytes<4> = Bytes::default();
                    Step::More(FileHeaderParserState::Count(fresh))
                } else {
                    Step::More(FileHeaderParserState::Tag(n + 1))
                }
            }
            FileHeaderParserState::Count(p) => {
                let mut p2 = p;
                p2.val[p2.len] = b;
                p2.len = p2.len + 1;
                proof {
                    assert(p2.partial() =~= p.partial().push(b));
                }
                if p2.len == 4 {
                    let c = p2.val;
                    let count = ((c[0] as u32) << 24) | ((c[1] as u32) << 16) | ((c[2] as u32) << 8)
                        | (c[3] as u32);
                    proof {
                        let s = p2.partial();
                        assert(s =~= p2.val@);
                        let b0 = c[0];
                        let b1 = c[1];
                        let b2 = c[2];
                        let b3 = c[3];
                        assert(((b0 as u32) << 24) | ((b1 as u32) << 16) | ((b2 as u32) << 8) | (
                        b3 as u32) == ((b0 as nat) * 0x1000000 + (b1 as nat) * 0x10000 + (b2 as nat)
                            * 0x100 + (b3 as nat)) as u32) by (bit_vector);
                    }
                    Step::Done(FileHeader { count })
                } else {
                    Step::More(FileHeaderParserState::Count(p2))
                }
            }
        }
    }

    pub fn parse<'a>(self, buf: &'a [u8]) -> (r: Parsed<
        'a,
        FileHeaderParser,
        FileHeader,
        InvalidFileHeader,
    >)
        requires
            self.wf(),
        ensures
            ({
                let o = feed(file_step_fn(), self@, buf@);
                match r {
                    Parsed::Incomplete(p) => p.wf() && o == Outcome::<
                        FileSt,
                        FileHeader,
                        InvalidFileHeader,
                    >::Incomplete(p@),
                    Parsed::Done(v, tail) => o == Outcome::<
                        FileSt,
                        FileHeader,
                        InvalidFileHeader,
                    >::Done(v, tail@),
                    Parsed::Failed(e) => o == Outcome::<FileSt, FileHeader, InvalidFileHeader>::Fail(
                        e,
                    ),
                }
            }),
    {
        let ghost step = file_step_fn();
        let mut cur = self;
        let mut i: usize = 0;
        let n = buf.len();
        while i < n
            invariant
                i <= n,
                n == buf@.len(),
                cur.wf(),
                feed(step, self@, buf@.take(i as int)) == Outcome::<
                    FileSt,
                    FileHeader,
                    InvalidFileHeader,
                >::Incomplete(cur@),
                step == file_step_fn(),
            decreases n - i,
        {
            let b = buf[i];
            proof {
                assert(buf@.take(i as int).push(b) =~= buf@.take(i + 1));
                lemma_feed_snoc(step, self@, buf@.take(i as int), b);
                lemma_feed_one(step, cur@, b);
                lemma_split(step, self@, buf@.take(i + 1), buf@.skip(i + 1));
                assert(buf@.take(i + 1) + buf@.skip(i + 1) =~= buf@);
            }
            match FileHeaderParser::step_exec(cur.0, b) {
                Step::More(s2) => {
                    cur = FileHeaderParser(s2);
                }
                Step::Done(v) => {
                    let tail = slice_subrange(buf, i + 1, n);
                    proof {
                        assert(Seq::<u8>::empty() + buf@.skip(i + 1) =~= buf@.skip(i + 1));
                        assert(tail@ =~= buf@.skip(i + 1));
                    }
                    return Parsed::Done(v, tail);
                }
                Step::Fail(e) => {
                    return Parsed::Failed(e);
                }
            }
            i = i + 1;
        }
        proof {
            assert(buf@.take(n as int) =~= buf@);
        }
        Parsed::Incomplete(cur)
    }
}

/// A parsed per-entry header: a plain object, or a delta against a base.
#[derive(Copy, Clone, Debug, Eq, PartialEq)]
pub enum EntryHeader {
    Object(ObjectHeader),
    Delta(DeltaHeader),
}

/// A parsed delta entry header: the length of the delta stream, and the
/// base as a backward byte distance or as an object id.
#[derive(Copy, Clone, Debug, Eq, PartialEq)]
pub enum DeltaHeader {
    Offset { delta_len: u64, base: u64 },
    Reference { delta_len: u64, base: ObjectId },
}

/// The two ways a delta names its base.
#[derive(Copy, Clone, Debug, Eq, PartialEq, Structural)]
pub enum DeltaKind {
    Offset,
    Reference,
}

/// What an entry holds: an object of some kind, or a delta of some kind.
#[derive(Copy, Clone, Debug, Eq, PartialEq, Structural)]
pub enum EntryKind {
    Object(ObjectKind),
    Delta(DeltaKind),
}

/// Specification-level image of `DeltaHeader`: the reference base as its
/// byte string.
pub enum DeltaHeaderView {
    Offset { delta_len: u64, base: u64 },
    Reference { delta_len: u64, base: Seq<u8> },
}

/// Specification-level image of `EntryHeader`.
pub enum EntryHeaderView {
    Object(ObjectHeader),
    Delta(DeltaHeaderView),
}

impl View for DeltaHeader {
    type V = DeltaHeaderView;

    open spec fn view(&self) -> DeltaHeaderView {
        match *self {
            DeltaHeader::Offset { delta_len, base } => DeltaHeaderView::Offset { delta_len, base },
            DeltaHeader::Reference { delta_len, base } => DeltaHeaderView::Reference {
                delta_len,
                base: base@,
            },
        }
    }
}

impl View for EntryHeader {
    type V = EntryHeaderView;

    open spec fn view(&self) -> EntryHeaderView {
        match *self {
            EntryHeader::Object(h) => EntryHeaderView::Object(h),
            EntryHeader::Delta(d) => EntryHeaderView::Delta(d@),
        }
    }
}

impl DeltaHeader {
    /// Whether the base is named by offset or by id.
    pub open spec fn spec_kind(self) -> DeltaKind {
        match self {
            DeltaHeader::Offset { .. } => DeltaKind::Offset,
            DeltaHeader::Reference { .. } => DeltaKind::Reference,
        }
    }

    pub fn kind(&self) -> (r: DeltaKind)
        ensures
            r == self.spec_kind(),
    {
        match *self {
            DeltaHeader::Offset { .. } => DeltaKind::Offset,
            DeltaHeader::Reference { .. } => DeltaKind::Reference,
        }
    }

    /// The byte length of the delta stream.
    pub open spec fn spec_delta_len(self) -> u64 {
        match self {
            DeltaHeader::Offset { delta_len, .. } => delta_len,
            DeltaHeader::Reference { delta_len, .. } => delta_len,
        }
    }

    pub fn delta_len(&self) -> (r: u64)
        ensures
            r == self.spec_delta_len(),
    {
        match *self {
            DeltaHeader::Offset { delta_len, .. } => delta_len,
            DeltaHeader::Reference { delta_len, .. } => delta_len,
        }
    }
}

impl EntryHeader {
    /// The entry's kind: the object kind, or the delta flavour.
    pub open spec fn spec_kind(self) -> EntryKind {
        match self {
            EntryHeader::Object(h) => EntryKind::Object(h.kind),
            EntryHeader::Delta(d) => EntryKind::Delta(d.spec_kind()),
        }
    }

    pub fn kind(&self) -> (r: EntryKind)
        ensures
            r == self.spec_kind(),
    {
        match *self {
            EntryHeader::Object(ref h) => EntryKind::Object(h.kind),
            EntryHeader::Delta(ref d) => EntryKind::Delta(d.kind()),
        }
    }
}

/// Incremental parser for the offset-delta base encoding: the first byte
/// gives seven bits; each continuation byte `b` turns `off` into
/// `((off + 1) << 7) | (b & 0x7f)`. This is not LEB128.
#[derive(Copy, Clone, Debug, Eq, PartialEq)]
pub enum DeltaOffsetParser {
    Fresh,
    Offset(u64),
}

/// One byte of the offset-delta base encoding; overflow of the shift is a
/// hard error.
pub open spec fn off_step(st: DeltaOffsetParser, b: u8) -> Step<
    DeltaOffsetParser,
    u64,
    InvalidDeltaHeader,
> {
    match st {
        DeltaOffsetParser::Fresh => {
            let off = (b & 0x7f) as u64;
            if b & 0x80 == 0 {
                Step::Done(off)
            } else {
                Step::More(DeltaOffsetParser::Offset(off))
            }
        }
        DeltaOffsetParser::Offset(off) => {
            if off == u64::MAX {
                Step::Fail(InvalidDeltaHeader)
            } else {
                let off1 = (off + 1) as u64;
                if !shl64_in_range(off1, 7) {
                    Step::Fail(InvalidDeltaHeader)
                } else {
                    let off2 = shl64(off1, 7) | ((b & 0x7f) as u64);
                    if b & 0x80 == 0 {
                        Step::Done(off2)
                    } else {
                        Step::More(DeltaOffsetParser::Offset(off2))
                    }
                }
            }
        }
    }
}

pub open spec fn off_step_fn() -> spec_fn(DeltaOffsetParser, u8) -> Step<
    DeltaOffsetParser,
    u64,
    InvalidDeltaHeader,
> {
    |st: DeltaOffsetParser, b: u8| off_step(st, b)
}

/// One transition of the offset-delta base parser.
fn off_step_exec(st: DeltaOffsetParser, b: u8) -> (r: Step<DeltaOffsetParser, u64, InvalidDeltaHeader>)
    ensures
        r == off_step(st, b),
{
    match st {
        DeltaOffsetParser::Fresh => {
            let off = (b & 0x7f) as u64;
            if b & 0x80 == 0 {
                Step::Done(off)
            } else {
                Step::More(DeltaOffsetParser::Offset(off))
            }
        }
        DeltaOffsetParser::Offset(off) => {
            if off == u64::MAX {
                Step::Fail(InvalidDeltaHeader)
            } else {
                match safe_shl_u64(off + 1, 7) {
                    None => Step::Fail(InvalidDeltaHeader),
                    Some(s) => {
                        let off2 = s | ((b & 0x7f) as u64);
                        if b & 0x80 == 0 {
                            Step::Done(off2)
                        } else {
                            Step::More(DeltaOffsetParser::Offset(off2))
                        }
                    }
                }
            }
        }
    }
}

impl DeltaOffsetParser {
    /// Parse an offset-delta base from its own fresh or mid-flight state.
    pub fn parse<'a>(self, buf: &'a [u8]) -> (r: Parsed<
        'a,
        DeltaOffsetParser,
        u64,
        InvalidDeltaHeader,
    >)
        ensures
            ({
                let o = feed(off_step_fn(), self, buf@);
                match r {
                    Parsed::Incomplete(p) => o == Outcome::<
                        DeltaOffsetParser,
                        u64,
                        InvalidDeltaHeader,
                    >::Incomplete(p),
                    Parsed::Done(v, tail) => o == Outcome::<
                        DeltaOffsetParser,
                        u64,
                        InvalidDeltaHeader,
                    >::Done(v, tail@),
                    Parsed::Failed(e) => o == Outcome::<
                        DeltaOffsetParser,
                        u64,
                        InvalidDeltaHeader,
                    >::Fail(e),
                }
            }),
    {
        let ghost step = off_step_fn();
        let mut cur = self;
        let mut i: usize = 0;
        let n = buf.len();
        while i < n
            invariant
                i <= n,
                n == buf@.len(),
                feed(step, self, buf@.take(i as int)) == Outcome::<
                    DeltaOffsetParser,
                    u64,
                    InvalidDeltaHeader,
                >::Incomplete(cur),
                step == off_step_fn(),
            decreases n - i,
        {
            let b = buf[i];
            proof {
                assert(buf@.take(i as int).push(b) =~= buf@.take(i + 1));
                lemma_feed_snoc(step, self, buf@.take(i as int), b);
                lemma_feed_one(step, cur, b);
                lemma_split(step, self, buf@.take(i + 1), buf@.skip(i + 1));
                assert(buf@.take(i + 1) + buf@.skip(i + 1) =~= buf@);
            }
            match off_step_exec(cur, b) {
                Step::More(s2) => {
                    cur = s2;
                }
                Step::Done(v) => {
                    let tail = slice_subrange(buf, i + 1, n);
                    proof {
                        assert(Seq::<u8>::empty() + buf@.skip(i + 1) =~= buf@.skip(i + 1));
                        assert(tail@ =~= buf@.skip(i + 1));
                    }
                    return Parsed::Done(v, tail);
                }
                Step::Fail(e) => {
                    return Parsed::Failed(e);
                }
            }
            i = i + 1;
        }
        proof {
            assert(buf@.take(n as int) =~= buf@);
        }
        Parsed::Incomplete(cur)
    }
}

/// Incremental parser for a delta entry's base, after its length is known.
#[derive(Copy, Clone, Debug, Eq, PartialEq)]
pub enum DeltaHeaderParser {
    Offset(u64, DeltaOffsetParser),
    Reference(u64, ObjectIdParser),
}

impl DeltaHeaderParser {
    /// Start parsing the base of a delta whose stream length is known.
    pub fn new(delta_len: u64, kind: DeltaKind) -> (r: DeltaHeaderParser)
        ensures
            r@ == delta_fresh(delta_len, kind),
            r.wf(),
    {
        match kind {
            DeltaKind::Offset => DeltaHeaderParser::Offset(delta_len, DeltaOffsetParser::Fresh),
            DeltaKind::Reference => DeltaHeaderParser::Reference(delta_len, ObjectIdParser::default()),
        }
    }

    pub open spec fn wf(self) -> bool {
        match self {
            DeltaHeaderParser::Offset(_, _) => true,
            DeltaHeaderParser::Reference(_, p) => p.0.wf(),
        }
    }
}

/// Specification-level state of the delta base parser.
pub enum DeltaSt {
    Offset(u64, DeltaOffsetParser),
    Reference(u64, Seq<u8>),
}

impl View for DeltaHeaderParser {
    type V = DeltaSt;

    open spec fn view(&self) -> DeltaSt {
        match *self {
            DeltaHeaderParser::Offset(len, p) => DeltaSt::Offset(len, p),
            DeltaHeaderParser::Reference(len, p) => DeltaSt::Reference(len, p.0.partial()),
        }
    }
}

/// The fresh base parser state for a delta of the given kind.
pub open spec fn delta_fresh(delta_len: u64, kind: DeltaKind) -> DeltaSt {
    match kind {
        DeltaKind::Offset => DeltaSt::Offset(delta_len, DeltaOffsetParser::Fresh),
        DeltaKind::Reference => DeltaSt::Reference(delta_len, Seq::empty()),
    }
}

/// One byte of the delta base: drive the offset parser, or gather the next
/// of the twenty id bytes.
pub open spec fn delta_step(st: DeltaSt, b: u8) -> Step<DeltaSt, DeltaHeaderView, InvalidDeltaHeader> {
    match st {
        DeltaSt::Offset(len, op) => match off_step(op, b) {
            Step::More(op2) => Step::More(DeltaSt::Offset(len, op2)),
            Step::Done(off) => Step::Done(DeltaHeaderView::Offset { delta_len: len, base: off }),
            Step::Fail(e) => Step::Fail(e),
        },
        DeltaSt::Reference(len, acc) => match Bytes::<20>::step(acc, b) {
            Step::More(a2) => Step::More(DeltaSt::Reference(len, a2)),
            Step::Done(a2) => Step::Done(DeltaHeaderView::Reference { delta_len: len, base: a2 }),
            Step::Fail(_) => Step::Fail(InvalidDeltaHeader),
        },
    }
}

/// Incremental parser for a whole entry header: the tag byte, an optional
/// size continuation, and for deltas the base.
#[derive(Copy, Clone, Debug, Eq, PartialEq)]
pub struct EntryHeaderParser(pub EntryHeaderParserState);

#[derive(Copy, Clone, Debug, Eq, PartialEq)]
pub enum EntryHeaderParserState {
    Fresh,
    Size(EntryKind, Leb128),
    Delta(DeltaHeaderParser),
}

/// Specification-level state of the entry header parser.
pub enum EntrySt {
    Fresh,
    Size(EntryKind, Leb128),
    Delta(DeltaSt),
}

impl View for EntryHeaderParser {
    type V = EntrySt;

    open spec fn view(&self) -> EntrySt {
        match self.0 {
            EntryHeaderParserState::Fresh => EntrySt::Fresh,
            EntryHeaderParserState::Size(kind, p) => EntrySt::Size(kind, p),
            EntryHeaderParserState::Delta(p) => EntrySt::Delta(p@),
        }
    }
}

impl Default for EntryHeaderParser {
    /// A fresh parser: the tag byte not yet read.
    fn default() -> (r: EntryHeaderParser)
        ensures
            r@ == EntrySt::Fresh,
            r.wf(),
    {
        EntryHeaderParser(EntryHeaderParserState::Fresh)
    }
}

/// The entry kind encoded by the tag byte's bits 4..6, if any.
pub open spec fn entry_kind_of_bits(kb: u8) -> Option<EntryKind> {
    if kb == 1 {
        Some(EntryKind::Object(ObjectKind::Commit))
    } else if kb == 2 {
        Some(EntryKind::Object(ObjectKind::Tree))
    } else if kb == 3 {
        Some(EntryKind::Object(ObjectKind::Blob))
    } else if kb == 4 {
        Some(EntryKind::Object(ObjectKind::Tag))
    } else if kb == 6 {
        Some(EntryKind::Delta(DeltaKind::Offset))
    } else if kb == 7 {
        Some(EntryKind::Delta(DeltaKind::Reference))
    } else {
        None
    }
}

/// What follows once the size is complete: objects are done, deltas go on
/// to their base.
pub open spec fn entry_tail(kind: EntryKind, size: u64) -> Step<
    EntrySt,
    EntryHeaderView,
    InvalidEntryHeader,
> {
    match kind {
        EntryKind::Object(k) => Step::Done(EntryHeaderView::Object(ObjectHeader { kind: k, size })),
        EntryKind::Delta(dk) => Step::More(EntrySt::Delta(delta_fresh(size, dk))),
    }
}

/// One byte of the entry header.
pub open spec fn entry_step(st: EntrySt, b: u8) -> Step<EntrySt, EntryHeaderView, InvalidEntryHeader> {
    match st {
        EntrySt::Fresh => {
            let size = (b & 15) as u64;
            match entry_kind_of_bits((b >> 4) & 7) {
                None => Step::Fail(InvalidEntryHeader),
                Some(kind) => {
                    if b & 0x80 != 0 {
                        Step::More(EntrySt::Size(kind, Leb128 { shift: 4, value: size }))
                    } else {
                        entry_tail(kind, size)
                    }
                }
            }
        }
        EntrySt::Size(kind, leb) => match Leb128::step(leb, b) {
            Step::More(l2) => Step::More(EntrySt::Size(kind, l2)),
            Step::Done(size) => entry_tail(kind, size),
            Step::Fail(_) => Step::Fail(InvalidEntryHeader),
        },
        EntrySt::Delta(dst) => match delta_step(dst, b) {
            Step::More(d2) => Step::More(EntrySt::Delta(d2)),
            Step::Done(v) => Step::Done(EntryHeaderView::Delta(v)),
            Step::Fail(_) => Step::Fail(InvalidEntryHeader),
        },
    }
}

pub open spec fn entry_step_fn() -> spec_fn(EntrySt, u8) -> Step<
    EntrySt,
    EntryHeaderView,
    InvalidEntryHeader,
> {
    |st: EntrySt, b: u8| entry_step(st, b)
}

impl EntryHeaderParser {
    pub open spec fn wf(self) -> bool {
        match self.0 {
            EntryHeaderParserState::Fresh => true,
            EntryHeaderParserState::Size(_, _) => true,
            EntryHeaderParserState::Delta(p) => p.wf(),
        }
    }

    /// One transition of the entry header parser.
    fn step_exec(st: EntryHeaderParserState, b: u8) -> (r: Step<
        EntryHeaderParserState,
        EntryHeader,
        InvalidEntryHeader,
    >)
        requires
            EntryHeaderParser(st).wf(),
        ensures
            match r {
                Step::More(s2) => EntryHeaderParser(s2).wf() && entry_step(EntryHeaderParser(st)@, b)
                    == Step::<EntrySt, EntryHeaderView, InvalidEntryHeader>::More(EntryHeaderParser(
                    s2,
                )@),
                Step::Done(v) => entry_step(EntryHeaderParser(st)@, b) == Step::<
                    EntrySt,
                    EntryHeaderView,
                    InvalidEntryHeader,
                >::Done(v@),
                Step::Fail(e) => entry_step(EntryHeaderParser(st)@, b) == Step::<
                    EntrySt,
                    EntryHeaderView,
                    InvalidEntryHeader,
                >::Fail(e),
            },
    {
        match st {
            EntryHeaderParserState::Fresh => {
                let kb = (b >> 4) & 7;
                let size = (b & 15) as u64;
                let kind: EntryKind = if kb == 1 {
                    EntryKind::Object(ObjectKind::Commit)
                } else if kb == 2 {
                    EntryKind::Object(ObjectKind::Tree)
                } else if kb == 3 {
                    EntryKind::Object(ObjectKind::Blob)
                } else if kb == 4 {
                    EntryKind::Object(ObjectKind::Tag)
                } else if kb == 6 {
                    EntryKind::Delta(DeltaKind::Offset)
                } else if kb == 7 {
                    EntryKind::Delta(DeltaKind::Reference)
                } else {
                    return Step::Fail(InvalidEntryHeader);
                };
                if b & 0x80 != 0 {
                    Step::More(EntryHeaderParserState::Size(kind, Leb128::new(4, size)))
                } else {
                    EntryHeaderParser::tail_exec(kind, size)
                }
            }
            EntryHeaderParserState::Size(kind, p) => match Leb128::step_exec(p, b) {
                Step::More(l2) => Step::More(EntryHeaderParserState::Size(kind, l2)),
                Step::Done(size) => EntryHeaderParser::tail_exec(kind, size),
                Step::Fail(_) => Step::Fail(InvalidEntryHeader),
            },
            EntryHeaderParserState::Delta(p) => match p {
                DeltaHeaderParser::Offset(len, op) => match off_step_exec(op, b) {
                    Step::More(op2) => Step::More(EntryHeaderParserState::Delta(
                        DeltaHeaderParser::Offset(len, op2),
                    )),
                    Step::Done(off) => Step::Done(EntryHeader::Delta(DeltaHeader::Offset {
                        delta_len: len,
                        base: off,
                    })),
                    Step::Fail(_) => Step::Fail(InvalidEntryHeader),
                },
                DeltaHeaderParser::Reference(len, idp) => {
                    let mut bs = idp.0;
                    let ghost prev = bs.partial();
                    bs.val[bs.len] = b;
                    bs.len = bs.len + 1;
                    proof {
                        assert(bs.partial() =~= prev.push(b));
                    }
                    if bs.len == 20 {
                        proof {
                            assert(bs.partial() =~= bs.val@);
                        }
                        Step::Done(EntryHeader::Delta(DeltaHeader::Reference {
                            delta_len: len,
                            base: ObjectId(bs.val),
                        }))
                    } else {
                        Step::More(EntryHeaderParserState::Delta(DeltaHeaderParser::Reference(
                            len,
                            ObjectIdParser(bs),
                        )))
                    }
                }
            },
        }
    }

    /// What follows once the size is complete.
    fn tail_exec(kind: EntryKind, size: u64) -> (r: Step<
        EntryHeaderParserState,
        EntryHeader,
        InvalidEntryHeader,
    >)
        ensures
            match r {
                Step::More(s2) => EntryHeaderParser(s2).wf() && entry_tail(kind, size) == Step::<
                    EntrySt,
                    EntryHeaderView,
                    InvalidEntryHeader,
                >::More(EntryHeaderParser(s2)@),
                Step::Done(v) => entry_tail(kind, size) == Step::<
                    EntrySt,
                    EntryHeaderView,
                    InvalidEntryHeader,
                >::Done(v@),
                Step::Fail(e) => entry_tail(kind, size) == Step::<
                    EntrySt,
                    EntryHeaderView,
                    InvalidEntryHeader,
                >::Fail(e),
            },
    {
        match kind {
            EntryKind::Object(k) => Step::Done(EntryHeader::Object(ObjectHeader {
                kind: k,
                size,
            })),
            EntryKind::Delta(dk) => Step::More(EntryHeaderParserState::Delta(DeltaHeaderParser::new(
                size,
                dk,
            ))),
        }
    }

    pub fn parse<'a>(self, buf: &'a [u8]) -> (r: Parsed<
        'a,
        EntryHeaderParser,
        EntryHeader,
        InvalidEntryHeader,
    >)
        requires
            self.wf(),
        ensures
            ({
                let o = feed(entry_step_fn(), self@, buf@);
                match r {
                    Parsed::Incomplete(p) => p.wf() && o == Outcome::<
                        EntrySt,
                        EntryHeaderView,
                        InvalidEntryHeader,
                    >::Incomplete(p@),
                    Parsed::Done(v, tail) => o == Outcome::<
                        EntrySt,
                        EntryHeaderView,
                        InvalidEntryHeader,
                    >::Done(v@, tail@),
                    Parsed::Failed(e) => o == Outcome::<
                        EntrySt,
                        EntryHeaderView,
                        InvalidEntryHeader,
                    >::Fail(e),
                }
            }),
    {
        let ghost step = entry_step_fn();
        let mut cur = self;
        let mut i: usize = 0;
        let n = buf.len();
        while i < n
            invariant
                i <= n,
                n == buf@.len(),
                cur.wf(),
                feed(step, self@, buf@.take(i as int)) == Outcome::<
                    EntrySt,
                    EntryHeaderView,
                    InvalidEntryHeader,
                >::Incomplete(cur@),
                step == entry_step_fn(),
            decreases n - i,
        {
            let b = buf[i];
            proof {
                assert(buf@.take(i as int).push(b) =~= buf@.take(i + 1));
                lemma_feed_snoc(step, self@, buf@.take(i as int), b);
                lemma_feed_one(step, cur@, b);
                lemma_split(step, self@, buf@.take(i + 1), buf@.skip(i + 1));
                assert(buf@.take(i + 1) + buf@.skip(i + 1) =~= buf@);
            }
            match EntryHeaderParser::step_exec(cur.0, b) {
                Step::More(s2) => {
                    cur = EntryHeaderParser(s2);
                }
                Step::Done(v) => {
                    let tail = slice_subrange(buf, i + 1, n);
                    proof {
                        assert(Seq::<u8>::empty() + buf@.skip(i + 1) =~= buf@.skip(i + 1));
                        assert(tail@ =~= buf@.skip(i + 1));
                    }
                    return Parsed::Done(v, tail);
                }
                Step::Fail(e) => {
                    return Parsed::Failed(e);
                }
            }
            i = i + 1;
        }
        proof {
            assert(buf@.take(n as int) =~= buf@);
        }
        Parsed::Incomplete(cur)
    }
}

} // verus!
