use vstd::prelude::*;
use vstd::slice::slice_subrange;
use crate::incremental::Outcome;
use crate::incremental::Parsed;
use crate::incremental::feed;
use crate::incremental::lemma_feed_suffix;
use crate::object::ObjectHeader;
use crate::object::ObjectHasher;
use crate::object::ObjectKind;
use crate::object::preimage;
use crate::hash::sha1_of;
use crate::pack::FileHeader;
use crate::pack::FileHeaderParser;
use crate::pack::FileSt;
use crate::pack::file_step_fn;
use crate::pack::EntryHeader;
use crate::pack::EntryHeaderParser;
use crate::pack::EntrySt;
use crate::pack::EntryHeaderView;
use crate::pack::DeltaHeader;
use crate::pack::DeltaHeaderView;
use crate::pack::entry_step_fn;
use crate::delta::DeltaError;
use crate::delta::Reader;
use crate::delta::delta_output;
use crate::index::PackIndex;
use crate::index::PackEntry;
use crate::index::PackStats;
use crate::index::PackBase;
use crate::index::DeltaBase;
use crate::index::chain_offsets;
use crate::index::chain_root;
use crate::index::lemma_chain_root_bounds;
use crate::index::lemma_offset_unique;
use crate::index::lemma_object_unique;

verus! {

/// Errors fatal to a pack walk.
#[derive(Copy, Clone, Debug, Eq, PartialEq, Structural)]
pub enum WalkError {
    /// The first twelve bytes were not a version-2 pack header.
    InvalidFileHeader,
    /// An entry opened with a reserved kind nibble, or a varint of its
    /// header overflowed.
    InvalidEntryHeader,
    /// The pack ended in the middle of a header.
    UnexpectedEof,
    /// An entry header ran past 255 bytes and its length cannot be
    /// recorded.
    HeaderTooLong,
    /// A compressed body was not a valid zlib stream.
    BadZlibStream,
    /// A delta stream was malformed.
    Delta(DeltaError),
    /// A delta named a base that is not in the index.
    BaseNotFound,
    /// The reconstructed object collides with one already indexed.
    DuplicateObject,
}

/// What the zlib (DEFLATE) decompressor yields on a byte string: the
/// decompressed bytes and how many compressed bytes it consumed, or
/// nothing if the string does not open with a valid stream. Decompression
/// is a pure function of the bytes, so the result carries a name and every
/// contract above speaks through it.
pub uninterp spec fn zlib_inflate(data: Seq<u8>) -> Option<(Seq<u8>, int)>;

/// Relies on flate2's bufread::ZlibDecoder (new, read_to_end, total_in):
/// it inflates the zlib stream opening at `data[start..]`, consuming
/// exactly the compressed bytes, as a pure function of those bytes.
#[verifier::external_body]
fn zlib_decompress(data: &Vec<u8>, start: usize) -> (r: Option<(Vec<u8>, usize)>)
    requires
        start <= data@.len(),
    ensures
        match r {
            Some(p) => zlib_inflate(data@.skip(start as int)) == Some((p.0@, p.1 as int)) && start
                + p.1 <= data@.len(),
            None => zlib_inflate(data@.skip(start as int)) is None,
        },
{
    let mut d = flate2::bufread::ZlibDecoder::new(&data[start..]);
    let mut out: Vec<u8> = Vec::new();
    match std::io::Read::read_to_end(&mut d, &mut out) {
        Ok(_) => Some((out, d.total_in() as usize)),
        Err(_) => None,
    }
}

/// One walked entry, at the specification level: the reconstructed bytes,
/// what will be recorded about them, and where the next entry starts.
pub struct StepView {
    pub out: Seq<u8>,
    pub kind: ObjectKind,
    pub base_index: Option<usize>,
    pub header_len: int,
    pub next_pos: int,
}

/// Inflate and apply the delta layers listed in `layers`, deepest (last)
/// first, against the bytes reconstructed so far.
pub open spec fn replay(pack: Seq<u8>, cur: Seq<u8>, layers: Seq<u64>) -> Result<Seq<u8>, WalkError>
    decreases layers.len(),
{
    if layers.len() == 0 {
        Ok(cur)
    } else {
        let off = layers.last();
        if off > pack.len() {
            Err(WalkError::BadZlibStream)
        } else {
            match zlib_inflate(pack.skip(off as int)) {
                None => Err(WalkError::BadZlibStream),
                Some(p) => match delta_output(cur, p.0) {
                    Err(e) => Err(WalkError::Delta(e)),
                    Ok(out) => replay(pack, out, layers.drop_last()),
                },
            }
        }
    }
}

/// Hash the reconstructed bytes under the canonical preimage, refuse a
/// collision with the already-indexed entries, and describe the entry to
/// be recorded.
pub open spec fn finishing(
    entries: Seq<PackEntry>,
    header_len: int,
    next_pos: int,
    kind: ObjectKind,
    base_index: Option<usize>,
    out: Seq<u8>,
) -> Result<StepView, WalkError> {
    let id = sha1_of(preimage(ObjectHeader { kind, size: out.len() as u64 }) + out);
    if exists|j: int| 0 <= j < entries.len() && (#[trigger] entries[j].object@) == id {
        Err(WalkError::DuplicateObject)
    } else {
        Ok(StepView { out, kind, base_index, header_len, next_pos })
    }
}

/// One step of the pack walk, at the specification level: parse the entry
/// header at `pos`, reconstruct the object bytes (walking the delta chain
/// through `entries` where needed), and say what will be recorded.
pub open spec fn spec_next(pack: Seq<u8>, entries: Seq<PackEntry>, pos: int) -> Result<
    StepView,
    WalkError,
> {
    match feed(entry_step_fn(), EntrySt::Fresh, pack.skip(pos)) {
        Outcome::Incomplete(_) => Err(WalkError::UnexpectedEof),
        Outcome::Fail(_) => Err(WalkError::InvalidEntryHeader),
        Outcome::Done(hv, rest) => {
            let header_len = pack.len() - pos - rest.len();
            if header_len > 255 {
                Err(WalkError::HeaderTooLong)
            } else {
                let body = pos + header_len;
                match hv {
                    EntryHeaderView::Object(oh) => match zlib_inflate(pack.skip(body)) {
                        None => Err(WalkError::BadZlibStream),
                        Some(p) => finishing(entries, header_len, body + p.1, oh.kind, None, p.0),
                    },
                    EntryHeaderView::Delta(dh) => {
                        let found = match dh {
                            DeltaHeaderView::Offset { base: off, .. } => if off > pos {
                                None
                            } else if exists|i: int|
                                0 <= i < entries.len() && (#[trigger] entries[i].offset) == pos
                                    - off {
                                Some(
                                    choose|i: int|
                                        0 <= i < entries.len() && (#[trigger] entries[i].offset)
                                            == pos - off,
                                )
                            } else {
                                None
                            },
                            DeltaHeaderView::Reference { base: id, .. } => if exists|i: int|
                                0 <= i < entries.len() && (#[trigger] entries[i].object@) == id {
                                Some(
                                    choose|i: int|
                                        0 <= i < entries.len() && (#[trigger] entries[i].object@)
                                            == id,
                                )
                            } else {
                                None
                            },
                        };
                        match found {
                            None => Err(WalkError::BaseNotFound),
                            Some(bi) => {
                                let root = entries[chain_root(entries, bi)];
                                let root_body = root.offset + root.header_len;
                                if root_body > pack.len() {
                                    Err(WalkError::BadZlibStream)
                                } else {
                                    match zlib_inflate(pack.skip(root_body)) {
                                        None => Err(WalkError::BadZlibStream),
                                        Some(rp) => match replay(
                                            pack,
                                            rp.0,
                                            seq![body as u64] + chain_offsets(entries, bi),
                                        ) {
                                            Err(e) => Err(e),
                                            Ok(out) => match zlib_inflate(pack.skip(body)) {
                                                None => Err(WalkError::BadZlibStream),
                                                Some(bp) => finishing(
                                                    entries,
                                                    header_len,
                                                    body + bp.1,
                                                    root.kind,
                                                    Some(bi as usize),
                                                    out,
                                                ),
                                            },
                                        },
                                    }
                                }
                            }
                        }
                    }
                }
            }
        }
    }
}

/// Walks a pack held in memory entry by entry: parses each header,
/// reconstructs the object (applying delta chains), hashes it, and
/// records it in the index.
#[derive(Debug)]
pub struct ObjectReader {
    pos: usize,
    index: PackIndex,
    layers: Vec<u64>,
}

impl ObjectReader {
    /// The read position: where the next entry starts.
    pub closed spec fn spec_pos(self) -> int {
        self.pos as int
    }

    /// The index built so far.
    pub closed spec fn spec_index(self) -> PackIndex {
        self.index
    }

    /// Every recorded entry lies wholly before the read position.
    pub open spec fn wf(self) -> bool {
        &&& self.spec_index().wf()
        &&& forall|i: int|
            0 <= i < self.spec_index().entries().len() ==> (
            #[trigger] self.spec_index().entries()[i].offset) < self.spec_pos()
        &&& forall|i: int|
            0 <= i < self.spec_index().entries().len() ==> (
            #[trigger] self.spec_index().entries()[i].offset)
                + self.spec_index().entries()[i].header_len <= self.spec_pos()
    }

    /// Parse the pack's file header and stand ready at the first entry.
    pub fn new(pack: &Vec<u8>) -> (r: Result<(ObjectReader, FileHeader), WalkError>)
        ensures
            ({
                let o = feed(file_step_fn(), FileSt::Tag(0), pack@);
                match r {
                    Ok((rd, fh)) => {
                        &&& o matches Outcome::Done(h, tail) && fh == h && rd.spec_pos()
                            == pack@.len() - tail.len()
                        &&& rd.wf()
                        &&& rd.spec_index().entries().len() == 0
                        &&& rd.spec_pos() <= pack@.len()
                    },
                    Err(e) => match e {
                        WalkError::UnexpectedEof => o matches Outcome::Incomplete(_),
                        WalkError::InvalidFileHeader => o matches Outcome::Fail(_),
                        _ => false,
                    },
                }
            }),
    {
        match FileHeaderParser::default().parse(pack.as_slice()) {
            Parsed::Incomplete(_) => Err(WalkError::UnexpectedEof),
            Parsed::Failed(_) => Err(WalkError::InvalidFileHeader),
            Parsed::Done(fh, tail) => {
                proof {
                    lemma_feed_suffix(file_step_fn(), FileSt::Tag(0), pack@);
                }
                let pos = pack.len() - tail.len();
                let rd = ObjectReader {
                    pos,
                    index: PackIndex::with_capacity(fh.count as usize),
                    layers: Vec::new(),
                };
                Ok((rd, fh))
            }
        }
    }

    /// The index built so far.
    pub fn index(&self) -> (r: &PackIndex)
        ensures
            *r == self.spec_index(),
    {
        &self.index
    }

    /// Consume the reader, keeping the index.
    pub fn into_index(self) -> (r: PackIndex)
        ensures
            r == self.spec_index(),
    {
        self.index
    }

    /// Hash the reconstructed bytes, refuse a collision with an indexed
    /// entry, record the new entry, and advance to the next one.
    fn record(
        &mut self,
        pack: &Vec<u8>,
        pos: usize,
        header_len: u8,
        kind: ObjectKind,
        base_index: Option<usize>,
        out: Vec<u8>,
        next_pos: usize,
    ) -> (r: Result<Vec<u8>, WalkError>)
        requires
            old(self).wf(),
            old(self).spec_pos() == pos,
            header_len >= 1,
            pos + header_len <= next_pos <= pack@.len(),
            base_index matches Some(j) ==> j < old(self).spec_index().entries().len(),
        ensures
            final(self).wf(),
            ({
                let entries0 = old(self).spec_index().entries();
                let entries1 = final(self).spec_index().entries();
                let id = sha1_of(preimage(ObjectHeader { kind, size: out@.len() as u64 }) + out@);
                match r {
                    Ok(o2) => {
                        &&& o2@ == out@
                        &&& !(exists|j: int|
                            0 <= j < entries0.len() && (#[trigger] entries0[j].object@) == id)
                        &&& final(self).spec_pos() == next_pos
                        &&& entries1.len() == entries0.len() + 1
                        &&& forall|i: int| 0 <= i < entries0.len() ==> entries1[i] == entries0[i]
                        &&& entries1.last().offset == pos
                        &&& entries1.last().header_len == header_len
                        &&& entries1.last().kind == kind
                        &&& entries1.last().base_index == base_index
                        &&& entries1.last().object@ == id
                    },
                    Err(e) => {
                        &&& e == WalkError::DuplicateObject
                        &&& exists|j: int|
                            0 <= j < entries0.len() && (#[trigger] entries0[j].object@) == id
                        &&& final(self).spec_pos() == old(self).spec_pos()
                        &&& entries1 == entries0
                    },
                }
            }),
    {
        let ghost entries0 = self.index.entries();
        let size = out.len() as u64;
        let mut hasher = ObjectHasher::new(ObjectHeader { kind, size });
        hasher.update(out.as_slice());
        let object = hasher.digest();
        proof {
            assert(preimage(ObjectHeader { kind, size }) + out@ =~= hasher@);
        }
        match self.index.find_by_object(&object) {
            Some(_) => {
                return Err(WalkError::DuplicateObject);
            }
            None => {}
        }
        let entry = PackEntry {
            offset: pos as u64,
            object,
            header_len,
            kind,
            base_index,
            stats: PackStats::default(),
        };
        proof {
            if entries0.len() > 0 {
                assert(entries0.last().offset < pos as u64);
            }
            assert(next_pos as int <= usize::MAX as int);
            assert(usize::MAX as int <= u64::MAX as int);
        }
        self.index.push(entry);
        self.pos = next_pos;
        proof {
            assert(self.index.entries().last() == entry);
        }
        Ok(out)
    }

    /// Walk one entry: parse its header, reconstruct its bytes, hash them,
    /// record the entry, and return the bytes.
    pub fn next(&mut self, pack: &Vec<u8>) -> (r: Result<Vec<u8>, WalkError>)
        requires
            old(self).wf(),
            old(self).spec_pos() <= pack@.len(),
        ensures
            final(self).wf(),
            ({
                let s = spec_next(pack@, old(self).spec_index().entries(), old(self).spec_pos());
                let entries0 = old(self).spec_index().entries();
                let entries1 = final(self).spec_index().entries();
                match r {
                    Ok(out) => (s matches Ok(sv) && {
                        &&& out@ == sv.out
                        &&& final(self).spec_pos() == sv.next_pos
                        &&& final(self).spec_pos() <= pack@.len()
                        &&& entries1.len() == entries0.len() + 1
                        &&& forall|i: int| 0 <= i < entries0.len() ==> entries1[i] == entries0[i]
                        &&& entries1.last().offset == old(self).spec_pos()
                        &&& entries1.last().header_len == sv.header_len
                        &&& entries1.last().kind == sv.kind
                        &&& entries1.last().base_index == sv.base_index
                        &&& entries1.last().object@ == sha1_of(
                            preimage(ObjectHeader { kind: sv.kind, size: sv.out.len() as u64 })
                                + sv.out,
                        )
                    }),
                    Err(e) => s == Err::<StepView, WalkError>(e) && final(self).spec_pos() == old(
                        self,
                    ).spec_pos() && entries1 == entries0,
                }
            }),
    {
        let ghost entries0 = self.index.entries();
        let pos = self.pos;
        let n = pack.len();
        let sub = slice_subrange(pack.as_slice(), pos, n);
        proof {
            assert(sub@ =~= pack@.skip(pos as int));
        }
        let parsed = EntryHeaderParser::default().parse(sub);
        let (header, tail) = match parsed {
            Parsed::Incomplete(_) => {
                return Err(WalkError::UnexpectedEof);
            }
            Parsed::Failed(_) => {
                return Err(WalkError::InvalidEntryHeader);
            }
            Parsed::Done(h, tail) => (h, tail),
        };
        proof {
            lemma_feed_suffix(entry_step_fn(), EntrySt::Fresh, sub@);
        }
        let header_len = sub.len() - tail.len();
        if header_len > 255 {
            return Err(WalkError::HeaderTooLong);
        }
        let body = pos + header_len;
        match header {
            EntryHeader::Object(oh) => {
                let (out, used) = match zlib_decompress(pack, body) {
                    None => {
                        return Err(WalkError::BadZlibStream);
                    }
                    Some(p) => p,
                };
                proof {
                    assert(spec_next(pack@, entries0, pos as int) == finishing(
                        entries0,
                        header_len as int,
                        body + used,
                        oh.kind,
                        None,
                        out@,
                    ));
                }
                self.record(pack, pos, header_len as u8, oh.kind, None, out, body + used)
            }
            EntryHeader::Delta(dh) => {
                self.layers.clear();
                self.layers.push(body as u64);
                let dbase = match dh {
                    DeltaHeader::Offset { base: off, .. } => {
                        if off > pos as u64 {
                            return Err(WalkError::BaseNotFound);
                        }
                        DeltaBase::Offset(pos as u64 - off)
                    }
                    DeltaHeader::Reference { base, .. } => DeltaBase::Reference(base),
                };
                let pb = match self.index.resolve_base(&mut self.layers, dbase) {
                    None => {
                        return Err(WalkError::BaseNotFound);
                    }
                    Some(pb) => pb,
                };
                proof {
                    lemma_offset_unique(entries0);
                    lemma_object_unique(entries0, self.index.order());
                    lemma_chain_root_bounds(entries0, pb.base_index as int);
                    assert(entries0[chain_root(entries0, pb.base_index as int)].offset
                        + entries0[chain_root(entries0, pb.base_index as int)].header_len
                        <= pos as int);
                }
                let root_body = pb.root_entry.offset + (pb.root_entry.header_len as u64);
                let (root_out, _root_used) = match zlib_decompress(pack, root_body as usize) {
                    None => {
                        return Err(WalkError::BadZlibStream);
                    }
                    Some(p) => p,
                };
                let ghost layers0 = self.layers@;
                let ghost root_out0 = root_out@;
                let total = self.layers.len();
                let mut output = root_out;
                let mut body_used: usize = 0;
                let mut k = total;
                let mut failed: Option<WalkError> = None;
                proof {
                    assert(layers0.take(total as int) =~= layers0);
                }
                while k > 0 && failed.is_none()
                    invariant
                        k <= total,
                        self.layers@ == layers0,
                        total == layers0.len(),
                        total >= 1,
                        match failed {
                            Some(e) => replay(pack@, root_out0, layers0) == Err::<
                                Seq<u8>,
                                WalkError,
                            >(e),
                            None => replay(pack@, output@, layers0.take(k as int)) == replay(
                                pack@,
                                root_out0,
                                layers0,
                            ),
                        },
                        (k == 0 && failed is None) ==> ((zlib_inflate(
                            pack@.skip(layers0[0] as int),
                        ) matches Some(p) && p.1 == body_used as int) && layers0[0] + body_used
                            <= pack@.len()),
                    decreases k,
                {
                    k = k - 1;
                    let off = self.layers[k];
                    proof {
                        assert(layers0.take(k + 1).last() == layers0[k as int]);
                        assert(layers0.take(k + 1).drop_last() =~= layers0.take(k as int));
                    }
                    if off > (pack.len() as u64) {
                        failed = Some(WalkError::BadZlibStream);
                    } else {
                        match zlib_decompress(pack, off as usize) {
                            None => {
                                failed = Some(WalkError::BadZlibStream);
                            }
                            Some(p) => {
                                let dbytes = p.0;
                                body_used = p.1;
                                let prev = output;
                                output = Vec::new();
                                match Reader::new(prev, dbytes) {
                                    Err(e) => {
                                        failed = Some(WalkError::Delta(e));
                                    }
                                    Ok(rd) => match rd.read_to_end() {
                                        Err(e) => {
                                            failed = Some(WalkError::Delta(e));
                                        }
                                        Ok(o2) => {
                                            output = o2;
                                        }
                                    },
                                }
                            }
                        }
                    }
                }
                match failed {
                    Some(e) => {
                        proof {
                            assert(layers0 =~= seq![body as u64] + chain_offsets(
                                entries0,
                                pb.base_index as int,
                            ));
                        }
                        return Err(e);
                    }
                    None => {}
                }
                proof {
                    assert(layers0.take(0) =~= Seq::<u64>::empty());
                    assert(replay(pack@, output@, layers0.take(0)) == Ok::<Seq<u8>, WalkError>(
                        output@,
                    ));
                    assert(layers0 =~= seq![body as u64] + chain_offsets(
                        entries0,
                        pb.base_index as int,
                    ));
                    assert(layers0[0] == body as u64);
                    assert(spec_next(pack@, entries0, pos as int) == finishing(
                        entries0,
                        header_len as int,
                        body + body_used,
                        pb.root_entry.kind,
                        Some(pb.base_index),
                        output@,
                    ));
                }
                self.record(
                    pack,
                    pos,
                    header_len as u8,
                    pb.root_entry.kind,
                    Some(pb.base_index),
                    output,
                    body + body_used,
                )
            }
        }
    }
}

} // verus!
