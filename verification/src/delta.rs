use vstd::prelude::*;
use vstd::slice::slice_subrange;
use crate::incremental::Step;
use crate::incremental::Outcome;
use crate::incremental::Parsed;
use crate::incremental::feed;
use crate::incremental::lemma_split;
use crate::incremental::lemma_feed_one;
use crate::incremental::lemma_feed_consumes;
use crate::incremental::lemma_feed_suffix;
use crate::incremental::lemma_feed_snoc;
use crate::parsers::Leb128;
use crate::shl::shl64_in_range;
use crate::shl::shl64;
use crate::shl::safe_shl_u64;

verus! {

/// The delta stream's header: the declared lengths of the base and of the
/// reconstructed result. Both are the encoder's claims; this decoder does
/// not hold the streams to them.
#[derive(Copy, Clone, Debug, Eq, PartialEq, Structural)]
pub struct Header {
    pub base_len: u64,
    pub result_len: u64,
}

/// A length varint of the delta header overflowed.
#[derive(Copy, Clone, Debug, Eq, PartialEq)]
pub struct InvalidHeader;

/// Incremental parser for the delta header: two LEB128 integers.
#[derive(Copy, Clone, Debug, Eq, PartialEq)]
pub struct HeaderParser(pub HeaderParserState);

#[derive(Copy, Clone, Debug, Eq, PartialEq)]
pub enum HeaderParserState {
    First(Leb128),
    Second(u64, Leb128),
}

impl Default for HeaderParser {
    /// A fresh parser: the first length not yet begun.
    fn default() -> (r: HeaderParser)
        ensures
            r.0 == HeaderParserState::First(Leb128 { shift: 0, value: 0 }),
    {
        HeaderParser(HeaderParserState::First(Leb128 { shift: 0, value: 0 }))
    }
}

/// One byte of the delta header: drive the current length's varint, and
/// hand the first length on to the second's parse.
pub open spec fn hdr_step(st: HeaderParserState, b: u8) -> Step<HeaderParserState, Header, InvalidHeader> {
    match st {
        HeaderParserState::First(l) => match Leb128::step(l, b) {
            Step::More(l2) => Step::More(HeaderParserState::First(l2)),
            Step::Done(v) => Step::More(HeaderParserState::Second(v, Leb128 { shift: 0, value: 0 })),
            Step::Fail(_) => Step::Fail(InvalidHeader),
        },
        HeaderParserState::Second(base_len, l) => match Leb128::step(l, b) {
            Step::More(l2) => Step::More(HeaderParserState::Second(base_len, l2)),
            Step::Done(v) => Step::Done(Header { base_len, result_len: v }),
            Step::Fail(_) => Step::Fail(InvalidHeader),
        },
    }
}

pub open spec fn hdr_step_fn() -> spec_fn(HeaderParserState, u8) -> Step<
    HeaderParserState,
    Header,
    InvalidHeader,
> {
    |st: HeaderParserState, b: u8| hdr_step(st, b)
}

/// One transition of the delta header parser.
fn hdr_step_exec(st: HeaderParserState, b: u8) -> (r: Step<HeaderParserState, Header, InvalidHeader>)
    ensures
        r == hdr_step(st, b),
{
    match st {
        HeaderParserState::First(l) => match Leb128::step_exec(l, b) {
            Step::More(l2) => Step::More(HeaderParserState::First(l2)),
            Step::Done(v) => Step::More(HeaderParserState::Second(v, Leb128::new(0, 0))),
            Step::Fail(_) => Step::Fail(InvalidHeader),
        },
        HeaderParserState::Second(base_len, l) => match Leb128::step_exec(l, b) {
            Step::More(l2) => Step::More(HeaderParserState::Second(base_len, l2)),
            Step::Done(v) => Step::Done(Header { base_len, result_len: v }),
            Step::Fail(_) => Step::Fail(InvalidHeader),
        },
    }
}

impl HeaderParser {
    pub fn parse<'a>(self, buf: &'a [u8]) -> (r: Parsed<'a, HeaderParser, Header, InvalidHeader>)
        ensures
            ({
                let o = feed(hdr_step_fn(), self.0, buf@);
                match r {
                    Parsed::Incomplete(p) => o == Outcome::<
                        HeaderParserState,
                        Header,
                        InvalidHeader,
                    >::Incomplete(p.0),
                    Parsed::Done(v, tail) => o == Outcome::<
                        HeaderParserState,
                        Header,
                        InvalidHeader,
                    >::Done(v, tail@),
                    Parsed::Failed(e) => o == Outcome::<HeaderParserState, Header, InvalidHeader>::Fail(
                        e,
                    ),
                }
            }),
    {
        let ghost step = hdr_step_fn();
        let mut cur = self;
        let mut i: usize = 0;
        let n = buf.len();
        while i < n
            invariant
                i <= n,
                n == buf@.len(),
                feed(step, self.0, buf@.take(i as int)) == Outcome::<
                    HeaderParserState,
                    Header,
                    InvalidHeader,
                >::Incomplete(cur.0),
                step == hdr_step_fn(),
            decreases n - i,
        {
            let b = buf[i];
            proof {
                assert(buf@.take(i as int).push(b) =~= buf@.take(i + 1));
                lemma_feed_snoc(step, self.0, buf@.take(i as int), b);
                lemma_feed_one(step, cur.0, b);
                lemma_split(step, self.0, buf@.take(i + 1), buf@.skip(i + 1));
                assert(buf@.take(i + 1) + buf@.skip(i + 1) =~= buf@);
            }
            match hdr_step_exec(cur.0, b) {
                Step::More(s2) => {
                    cur = HeaderParser(s2);
                }
                Step::Done(v) => {
                    let tail = slice_subrange(buf, i + 1, n);
                    proof {
                        assert(Seq::<u8>::empty() + buf@.skip(i + 1) =~= buf@.skip(i + 1));
                        assert(tail@ =~= buf@.skip(i + 1));
                    }
                    return Parsed::Done(v, tail);
                }
                Step::Fail(e) => {
                    return Parsed::Failed(e);
                }
            }
            i = i + 1;
        }
        proof {
            assert(buf@.take(n as int) =~= buf@);
        }
        Parsed::Incomplete(cur)
    }
}

/// One delta instruction: append the next `len` bytes of the delta stream
/// verbatim, or copy `len` bytes from position `off` of the base.
#[derive(Copy, Clone, Debug, Eq, PartialEq, Structural)]
pub enum Command {
    Insert { len: u8 },
    Copy { off: u32, len: u32 },
}

impl Command {
    /// How many output bytes the command still stands for.
    pub open spec fn spec_len(self) -> u32 {
        match self {
            Command::Insert { len } => len as u32,
            Command::Copy { len, .. } => len,
        }
    }

    pub fn len(&self) -> (r: u32)
        ensures
            r == self.spec_len(),
    {
        match *self {
            Command::Insert { len } => len as u32,
            Command::Copy { len, .. } => len,
        }
    }
}

/// A reserved instruction byte, a bare copy marker selecting no operand
/// bytes, or overflow while assembling a copy operand.
#[derive(Copy, Clone, Debug, Eq, PartialEq)]
pub struct InvalidCommand;

/// Operand accumulator for a copy instruction: `bitmap` says which of the
/// remaining little-endian byte positions are present, `n` holds the bits
/// gathered, `i` the current position, `len` the number of positions.
#[derive(Copy, Clone, Debug, Eq, PartialEq, Structural)]
pub struct VarintParser {
    pub bitmap: u8,
    pub n: u64,
    pub i: u8,
    pub len: u8,
}

impl VarintParser {
    pub fn new(bitmap: u8, length: u8) -> (r: VarintParser)
        ensures
            r == (VarintParser { bitmap, n: 0u64, i: 0u8, len: length }),
    {
        VarintParser { bitmap, n: 0, i: 0, len: length }
    }
}

/// Skip operand positions whose bitmap bit is clear; stop at a position
/// that needs a byte, or at the end.
pub open spec fn varint_norm(v: VarintParser) -> VarintParser
    decreases v.len - v.i,
{
    if v.i >= v.len {
        v
    } else if v.bitmap & 1 == 1 {
        v
    } else {
        varint_norm(VarintParser { bitmap: v.bitmap >> 1, n: v.n, i: (v.i + 1) as u8, len: v.len })
    }
}

/// A normalized accumulator either waits on a present position or is done.
pub open spec fn varint_hungry(v: VarintParser) -> bool {
    v.i < v.len && v.bitmap & 1 == 1
}

/// Take one operand byte into the current position.
pub open spec fn varint_take(v: VarintParser, b: u8) -> Option<VarintParser> {
    if !shl64_in_range(b as u64, (8 * v.i) as nat) {
        None
    } else {
        Some(VarintParser {
            bitmap: v.bitmap >> 1,
            n: v.n | shl64(b as u64, (8 * v.i) as nat),
            i: (v.i + 1) as u8,
            len: v.len,
        })
    }
}

/// States of the command parser: waiting for an opcode, or gathering a
/// copy's offset then length operands.
#[derive(Copy, Clone, Debug, Eq, PartialEq, Structural)]
pub enum CommandParserState {
    Fresh,
    CopyOff(VarintParser),
    CopyLen(u64, VarintParser),
}

/// Incremental parser for one delta instruction.
#[derive(Copy, Clone, Debug, Eq, PartialEq, Structural)]
pub struct CommandParser(pub CommandParserState);

impl Default for CommandParser {
    /// A fresh parser: waiting for an opcode byte.
    fn default() -> (r: CommandParser)
        ensures
            r.0 == CommandParserState::Fresh,
    {
        CommandParser(CommandParserState::Fresh)
    }
}

/// The decoded copy command: a zero length stands for 0x10000 bytes.
pub open spec fn mk_copy(off: u64, len: u64) -> Command {
    Command::Copy { off: off as u32, len: if len == 0 { 0x10000u32 } else { len as u32 } }
}

/// After the offset operand: go on to the length operand, both phases
/// skipping absent positions eagerly.
pub open spec fn off_phase(v: VarintParser) -> Step<CommandParserState, Command, InvalidCommand> {
    if v.i >= v.len {
        len_phase(v.n, varint_norm(VarintParser { bitmap: v.bitmap, n: 0, i: 0, len: 3 }))
    } else {
        Step::More(CommandParserState::CopyOff(v))
    }
}

pub open spec fn len_phase(off: u64, v: VarintParser) -> Step<CommandParserState, Command, InvalidCommand> {
    if v.i >= v.len {
        Step::Done(mk_copy(off, v.n))
    } else {
        Step::More(CommandParserState::CopyLen(off, v))
    }
}

/// One byte of a delta instruction: opcode zero is reserved, a clear high
/// bit is an insert of that many bytes, and a copy gathers the operand
/// bytes its opcode bitmap selects. A copy opcode selecting no operand
/// bytes at all is invalid.
pub open spec fn cmd_step(st: CommandParserState, b: u8) -> Step<CommandParserState, Command, InvalidCommand> {
    match st {
        CommandParserState::Fresh => {
            if b == 0 {
                Step::Fail(InvalidCommand)
            } else if b & 0x80 == 0 {
                Step::Done(Command::Insert { len: b })
            } else if b == 0x80 {
                Step::Fail(InvalidCommand)
            } else {
                off_phase(varint_norm(VarintParser { bitmap: b, n: 0, i: 0, len: 4 }))
            }
        }
        CommandParserState::CopyOff(v) => match varint_take(v, b) {
            None => Step::Fail(InvalidCommand),
            Some(v2) => off_phase(varint_norm(v2)),
        },
        CommandParserState::CopyLen(off, v) => match varint_take(v, b) {
            None => Step::Fail(InvalidCommand),
            Some(v2) => len_phase(off, varint_norm(v2)),
        },
    }
}

pub open spec fn cmd_step_fn() -> spec_fn(CommandParserState, u8) -> Step<
    CommandParserState,
    Command,
    InvalidCommand,
> {
    |st: CommandParserState, b: u8| cmd_step(st, b)
}

/// Skip absent operand positions.
fn varint_norm_exec(v: VarintParser) -> (r: VarintParser)
    ensures
        r == varint_norm(v),
{
    let mut cur = v;
    while cur.i < cur.len && cur.bitmap & 1 == 0
        invariant
            varint_norm(cur) == varint_norm(v),
        decreases cur.len - cur.i,
    {
        cur = VarintParser { bitmap: cur.bitmap >> 1, n: cur.n, i: cur.i + 1, len: cur.len };
    }
    proof {
        let bm = cur.bitmap;
        assert(bm & 1 == 0 || bm & 1 == 1) by (bit_vector);
        assert(varint_norm(cur) == cur);
    }
    cur
}

/// One transition of the command parser.
fn cmd_step_exec(st: CommandParserState, b: u8) -> (r: Step<CommandParserState, Command, InvalidCommand>)
    ensures
        r == cmd_step(st, b),
{
    match st {
        CommandParserState::Fresh => {
            if b == 0 {
                Step::Fail(InvalidCommand)
            } else if b & 0x80 == 0 {
                Step::Done(Command::Insert { len: b })
            } else if b == 0x80 {
                Step::Fail(InvalidCommand)
            } else {
                off_phase_exec(varint_norm_exec(VarintParser::new(b, 4)))
            }
        }
        CommandParserState::CopyOff(v) => match varint_take_exec(v, b) {
            None => Step::Fail(InvalidCommand),
            Some(v2) => off_phase_exec(varint_norm_exec(v2)),
        },
        CommandParserState::CopyLen(off, v) => match varint_take_exec(v, b) {
            None => Step::Fail(InvalidCommand),
            Some(v2) => len_phase_exec(off, varint_norm_exec(v2)),
        },
    }
}

/// Take one operand byte into the current position.
fn varint_take_exec(v: VarintParser, b: u8) -> (r: Option<VarintParser>)
    ensures
        r == varint_take(v, b),
{
    if v.i >= 8 {
        proof {
            assert(!shl64_in_range(b as u64, (8 * v.i) as nat));
        }
        return None;
    }
    match safe_shl_u64(b as u64, (v.i as u32) * 8) {
        None => None,
        Some(m) => Some(VarintParser { bitmap: v.bitmap >> 1, n: v.n | m, i: v.i + 1, len: v.len }),
    }
}

fn off_phase_exec(v: VarintParser) -> (r: Step<CommandParserState, Command, InvalidCommand>)
    ensures
        r == off_phase(v),
{
    if v.i >= v.len {
        len_phase_exec(v.n, varint_norm_exec(VarintParser::new(v.bitmap, 3)))
    } else {
        Step::More(CommandParserState::CopyOff(v))
    }
}

fn len_phase_exec(off: u64, v: VarintParser) -> (r: Step<CommandParserState, Command, InvalidCommand>)
    ensures
        r == len_phase(off, v),
{
    if v.i >= v.len {
        let len: u32 = if v.n == 0 {
            0x10000
        } else {
            (v.n & 0xffffffff) as u32
        };
        proof {
            let nn = v.n;
            assert((nn & 0xffffffff) as u32 == nn as u32) by (bit_vector);
            assert((off & 0xffffffff) as u32 == off as u32) by (bit_vector);
        }
        Step::Done(Command::Copy { off: (off & 0xffffffff) as u32, len })
    } else {
        Step::More(CommandParserState::CopyLen(off, v))
    }
}

impl CommandParser {
    pub fn parse<'a>(self, buf: &'a [u8]) -> (r: Parsed<'a, CommandParser, Command, InvalidCommand>)
        ensures
            ({
                let o = feed(cmd_step_fn(), self.0, buf@);
                match r {
                    Parsed::Incomplete(p) => o == Outcome::<
                        CommandParserState,
                        Command,
                        InvalidCommand,
                    >::Incomplete(p.0),
                    Parsed::Done(v, tail) => o == Outcome::<
                        CommandParserState,
                        Command,
                        InvalidCommand,
                    >::Done(v, tail@),
                    Parsed::Failed(e) => o == Outcome::<
                        CommandParserState,
                        Command,
                        InvalidCommand,
                    >::Fail(e),
                }
            }),
    {
        let ghost step = cmd_step_fn();
        let mut cur = self;
        let mut i: usize = 0;
        let n = buf.len();
        while i < n
            invariant
                i <= n,
                n == buf@.len(),
                feed(step, self.0, buf@.take(i as int)) == Outcome::<
                    CommandParserState,
                    Command,
                    InvalidCommand,
                >::Incomplete(cur.0),
                step == cmd_step_fn(),
            decreases n - i,
        {
            let b = buf[i];
            proof {
                assert(buf@.take(i as int).push(b) =~= buf@.take(i + 1));
                lemma_feed_snoc(step, self.0, buf@.take(i as int), b);
                lemma_feed_one(step, cur.0, b);
                lemma_split(step, self.0, buf@.take(i + 1), buf@.skip(i + 1));
                assert(buf@.take(i + 1) + buf@.skip(i + 1) =~= buf@);
            }
            match cmd_step_exec(cur.0, b) {
                Step::More(s2) => {
                    cur = CommandParser(s2);
                }
                Step::Done(v) => {
                    let tail = slice_subrange(buf, i + 1, n);
                    proof {
                        assert(Seq::<u8>::empty() + buf@.skip(i + 1) =~= buf@.skip(i + 1));
                        assert(tail@ =~= buf@.skip(i + 1));
                    }
                    return Parsed::Done(v, tail);
                }
                Step::Fail(e) => {
                    return Parsed::Failed(e);
                }
            }
            i = i + 1;
        }
        proof {
            assert(buf@.take(n as int) =~= buf@);
        }
        Parsed::Incomplete(cur)
    }
}

/// Error from constructing or running a delta reader.
#[derive(Copy, Clone, Debug, Eq, PartialEq, Structural)]
pub enum DeltaError {
    /// A length varint of the delta header overflowed.
    InvalidHeader,
    /// An instruction byte was reserved or malformed.
    InvalidCommand,
    /// The delta stream ended in the middle of a header or instruction.
    UnexpectedEof,
}

/// The bytes produced by replaying the instruction stream `delta` against
/// `base`, starting from the output gathered so far. An instruction that
/// runs past the end of its source emits the bytes that are there and ends
/// the stream; a stream ending cleanly at an instruction boundary ends it
/// too.
pub open spec fn spec_apply_from(base: Seq<u8>, delta: Seq<u8>, acc: Seq<u8>) -> Result<
    Seq<u8>,
    DeltaError,
>
    decreases delta.len(),
{
    if delta.len() == 0 {
        Ok(acc)
    } else {
        match feed(cmd_step_fn(), CommandParserState::Fresh, delta) {
            Outcome::Incomplete(_) => Err(DeltaError::UnexpectedEof),
            Outcome::Fail(_) => Err(DeltaError::InvalidCommand),
            Outcome::Done(cmd, rest) => {
                proof {
                    lemma_feed_consumes(cmd_step_fn(), CommandParserState::Fresh, delta);
                }
                match cmd {
                    Command::Insert { len } => {
                        if rest.len() < len as int {
                            Ok(acc + rest)
                        } else {
                            spec_apply_from(base, rest.skip(len as int), acc + rest.take(len as int))
                        }
                    }
                    Command::Copy { off, len } => {
                        if off as int + len as int <= base.len() {
                            spec_apply_from(
                                base,
                                rest,
                                acc + base.subrange(off as int, off as int + len as int),
                            )
                        } else if off as int <= base.len() {
                            Ok(acc + base.skip(off as int))
                        } else {
                            Ok(acc)
                        }
                    }
                }
            }
        }
    }
}

/// The bytes produced by replaying the instruction stream `delta` against
/// `base`.
pub open spec fn spec_apply(base: Seq<u8>, delta: Seq<u8>) -> Result<Seq<u8>, DeltaError> {
    spec_apply_from(base, delta, Seq::empty())
}

/// The whole delta decoder in one step: parse the header from the front
/// of `delta`, then replay the instructions that follow it.
pub open spec fn delta_output(base: Seq<u8>, delta: Seq<u8>) -> Result<Seq<u8>, DeltaError> {
    match feed(hdr_step_fn(), HeaderParserState::First(Leb128 { shift: 0, value: 0 }), delta) {
        Outcome::Incomplete(_) => Err(DeltaError::UnexpectedEof),
        Outcome::Fail(_) => Err(DeltaError::InvalidHeader),
        Outcome::Done(_h, rest) => spec_apply(base, rest),
    }
}

/// Append `src[from..to]` to `out`.
fn push_range(out: &mut Vec<u8>, src: &Vec<u8>, from: usize, to: usize)
    requires
        from <= to <= src@.len(),
    ensures
        final(out)@ == old(out)@ + src@.subrange(from as int, to as int),
{
    let mut k: usize = from;
    while k < to
        invariant
            from <= k <= to <= src@.len(),
            out@ == old(out)@ + src@.subrange(from as int, k as int),
        decreases to - k,
    {
        out.push(src[k]);
        proof {
            assert(old(out)@ + src@.subrange(from as int, k + 1) =~= (old(out)@ + src@.subrange(
                from as int,
                k as int,
            )).push(src@[k as int]));
        }
        k = k + 1;
    }
    proof {
        assert(out@ =~= old(out)@ + src@.subrange(from as int, to as int));
    }
}

/// Applies a delta stream to a base object held in memory: the header is
/// parsed on construction, and `read_to_end` replays the instructions.
pub struct Reader {
    base: Vec<u8>,
    delta: Vec<u8>,
    pos: usize,
    header: Header,
}

impl Reader {
    /// The base object.
    pub closed spec fn base_view(self) -> Seq<u8> {
        self.base@
    }

    /// The instruction bytes not yet consumed (everything after the header).
    pub closed spec fn remaining(self) -> Seq<u8> {
        self.delta@.skip(self.pos as int)
    }

    /// The parsed delta header.
    pub closed spec fn spec_header(self) -> Header {
        self.header
    }

    pub closed spec fn wf(self) -> bool {
        self.pos <= self.delta@.len()
    }

    /// Parse the delta header from the front of `delta`; the rest of the
    /// stream is kept for `read_to_end`.
    pub fn new(base: Vec<u8>, delta: Vec<u8>) -> (r: Result<Reader, DeltaError>)
        ensures
            ({
                let o = feed(
                    hdr_step_fn(),
                    HeaderParserState::First(Leb128 { shift: 0, value: 0 }),
                    delta@,
                );
                match r {
                    Ok(rd) => rd.wf() && rd.base_view() == base@ && (o matches Outcome::Done(
                        h,
                        tail,
                    ) && rd.spec_header() == h && rd.remaining() == tail),
                    Err(e) => match e {
                        DeltaError::UnexpectedEof => o matches Outcome::Incomplete(_),
                        DeltaError::InvalidHeader => o matches Outcome::Fail(_),
                        DeltaError::InvalidCommand => false,
                    },
                }
            }),
    {
        let n = delta.len();
        match HeaderParser::default().parse(delta.as_slice()) {
            Parsed::Incomplete(_) => Err(DeltaError::UnexpectedEof),
            Parsed::Failed(_) => Err(DeltaError::InvalidHeader),
            Parsed::Done(h, tail) => {
                proof {
                    lemma_feed_suffix(
                        hdr_step_fn(),
                        HeaderParserState::First(Leb128 { shift: 0, value: 0 }),
                        delta@,
                    );
                }
                let pos = n - tail.len();
                Ok(Reader { base, delta, pos, header: h })
            }
        }
    }

    /// The parsed delta header.
    pub fn header(&self) -> (r: Header)
        ensures
            r == self.spec_header(),
    {
        self.header
    }

    /// Replay the whole instruction stream and return the reconstructed
    /// bytes.
    pub fn read_to_end(self) -> (r: Result<Vec<u8>, DeltaError>)
        requires
            self.wf(),
        ensures
            match r {
                Ok(out) => spec_apply(self.base_view(), self.remaining()) == Ok::<_, DeltaError>(
                    out@,
                ),
                Err(e) => spec_apply(self.base_view(), self.remaining()) == Err::<Seq<u8>, _>(e),
            },
    {
        let Reader { base, delta, mut pos, header: _ } = self;
        let mut out: Vec<u8> = Vec::new();
        let ghost base0 = base@;
        let ghost rem0 = delta@.skip(pos as int);
        proof {
            assert(out@ =~= Seq::<u8>::empty());
        }
        loop
            invariant
                pos <= delta@.len(),
                base@ == base0,
                base0 == self.base_view(),
                rem0 == self.remaining(),
                spec_apply_from(base0, delta@.skip(pos as int), out@) == spec_apply_from(
                    base0,
                    rem0,
                    Seq::<u8>::empty(),
                ),
            decreases delta@.len() - pos,
        {
            let n = delta.len();
            if pos == n {
                proof {
                    assert(delta@.skip(pos as int) =~= Seq::<u8>::empty());
                }
                return Ok(out);
            }
            let sub = slice_subrange(delta.as_slice(), pos, n);
            proof {
                assert(sub@ =~= delta@.skip(pos as int));
            }
            match CommandParser::default().parse(sub) {
                Parsed::Incomplete(_) => {
                    return Err(DeltaError::UnexpectedEof);
                }
                Parsed::Failed(_) => {
                    return Err(DeltaError::InvalidCommand);
                }
                Parsed::Done(cmd, tail) => {
                    proof {
                        lemma_feed_suffix(cmd_step_fn(), CommandParserState::Fresh, sub@);
                    }
                    let consumed = sub.len() - tail.len();
                    let npos = pos + consumed;
                    proof {
                        assert(sub@.skip(consumed as int) =~= delta@.skip(npos as int));
                        assert(tail@ =~= delta@.skip(npos as int));
                    }
                    match cmd {
                        Command::Insert { len } => {
                            let len = len as usize;
                            if n - npos < len {
                                push_range(&mut out, &delta, npos, n);
                                proof {
                                    assert(delta@.subrange(npos as int, n as int) =~= delta@.skip(
                                        npos as int,
                                    ));
                                }
                                return Ok(out);
                            } else {
                                push_range(&mut out, &delta, npos, npos + len);
                                proof {
                                    assert(delta@.subrange(npos as int, npos + len) =~= delta@.skip(
                                        npos as int,
                                    ).take(len as int));
                                    assert(delta@.skip(npos + len) =~= delta@.skip(
                                        npos as int,
                                    ).skip(len as int));
                                }
                                pos = npos + len;
                            }
                        }
                        Command::Copy { off, len } => {
                            pos = npos;
                            let off = off as usize;
                            let len = len as usize;
                            let bn = base.len();
                            if off <= bn && len <= bn - off {
                                push_range(&mut out, &base, off, off + len);
                                proof {
                                    assert(base@.subrange(off as int, off + len) =~= base0.subrange(
                                        off as int,
                                        off as int + len as int,
                                    ));
                                }
                            } else if off <= bn {
                                push_range(&mut out, &base, off, bn);
                                proof {
                                    assert(base@.subrange(off as int, bn as int) =~= base0.skip(
                                        off as int,
                                    ));
                                }
                                return Ok(out);
                            } else {
                                return Ok(out);
                            }
                        }
                    }
                }
            }
        }
    }
}

} // verus!
