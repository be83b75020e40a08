//! The framing a server's updates arrive in, once the desktop is live.
//!
//! Everything up to the Font Map travels the slow path: a TPKT frame, an X.224 data
//! TPDU, an MCS Send Data Indication and a share control header, twenty-odd bytes of
//! envelope around a PDU that is often smaller than that. From the first update
//! onwards a server that was told this client understands fast-path output drops all
//! of it and sends a two-byte header instead.
//!
//! Both framings then share the socket: updates come fast-path, and a Deactivate All
//! or a Set Error Info still arrives the slow way. Which is which is decided by the
//! first byte, and decided without ambiguity: a TPKT frame begins with its version,
//! 3, and a fast-path PDU begins with a byte whose bottom two bits are the action,
//! which in the server's direction is 0.
//!
//! # One PDU, several updates; one update, several PDUs
//!
//! A fast-path PDU carries a run of updates, each with a type and its own length, so
//! a server may put a bitmap and a pointer shape in one frame. It works the other way
//! as well: a frame is at most 32 kilobytes, because the length field is fifteen bits,
//! and a full-screen update is far larger than that, so one update may be cut into
//! pieces marked first, next and last, and put back together here.
//!
//! The Multifragment Update capability is the two ends agreeing how large that
//! reassembled whole may be. [`Fragments`] is where the number is enforced, because
//! the buffer it bounds is this client's memory and the server is the one filling it.
//!
//! [MS-RDPBCGR] 2.2.9.1.2.

use vstd::prelude::*;

use super::wire::{cursor, facing, facing_both, le16, le16_at, view_steps, Cursor, Malformed, Reader, Step};

verus! {

/// The bottom two bits of the first byte, which are the action.
pub const ACTION: u8 = 0x03;

/// `FASTPATH_OUTPUT_ACTION_FASTPATH`: this is an update rather than an X.224 frame.
pub const ACTION_FASTPATH: u8 = 0x00;

/// `FASTPATH_OUTPUT_SECURE_CHECKSUM` and `FASTPATH_OUTPUT_ENCRYPTED`: the PDU carries
/// a signature, or is encrypted by RDP's own security rather than by TLS. This client
/// refuses every security method that would set either, so one of them here means the
/// connection is not the one that was negotiated.
pub const SECURE: u8 = 0xC0;

/// The top bit of the first length byte: the length is two bytes rather than one.
pub const LONG_LENGTH: u8 = 0x80;

/// The header of one update: the type, the fragmentation, and the compression.
pub const CODE: u8 = 0x0F;
pub const FRAGMENT: u8 = 0x30;
pub const COMPRESSION: u8 = 0xC0;

/// `FASTPATH_OUTPUT_COMPRESSION_USED`, which means a compression flags byte follows
/// the update header. The flags may still say the body was left alone.
pub const COMPRESSION_USED: u8 = 0x40;

/// `PACKET_COMPRESSED`: the body really is compressed. A server may only compress
/// what the Client Info PDU asked it to, and [`super::info`] asks for nothing.
pub const PACKET_COMPRESSED: u8 = 0x20;

/// Update types. Everything this client can be sent is here, with the ones it
/// refuses, so that a refusal can name what arrived rather than a number.
pub const ORDERS: u8 = 0x0;
pub const BITMAP: u8 = 0x1;
pub const PALETTE: u8 = 0x2;
pub const SYNCHRONIZE: u8 = 0x3;
pub const SURFACE_COMMANDS: u8 = 0x4;
pub const POINTER_HIDDEN: u8 = 0x5;
pub const POINTER_DEFAULT: u8 = 0x6;
pub const POINTER_POSITION: u8 = 0x8;
pub const COLOR_POINTER: u8 = 0x9;
pub const CACHED_POINTER: u8 = 0xA;
pub const NEW_POINTER: u8 = 0xB;
pub const LARGE_POINTER: u8 = 0xC;

pub const HEADER: &'static str = "a fast-path output header";
pub const PDU: &'static str = "a fast-path output PDU";
pub const UPDATE: &'static str = "a fast-path update";
pub const REASSEMBLED: &'static str = "a reassembled fast-path update";

/// Where a PDU's updates start, and how long the whole PDU is.
pub struct Header {
    pub start: usize,
    pub length: usize,
}

/// Whether the frame beginning with this byte is a fast-path output PDU rather than
/// the TPKT framing everything else still uses.
pub fn is_output(first: u8) -> (output: bool)
    ensures
        output == (first & ACTION == ACTION_FASTPATH),
{
    first & ACTION == ACTION_FASTPATH
}

/// A TPKT frame begins with its version, which no update begins with.
pub proof fn a_tpkt_frame_is_no_update()
    ensures
        super::x224::TPKT_VERSION & ACTION != ACTION_FASTPATH,
{
    assert(3u8 & 0x03u8 != 0) by (bit_vector);
}

/// The header at the front of some bytes, once there are enough of them to tell: the
/// length is one byte under 128 and two otherwise, and counts the header it is part of.
pub open spec fn header_spec(bytes: Seq<u8>) -> Result<Option<Header>, Malformed> {
    let c = cursor(HEADER, bytes);
    if bytes.len() == 0 {
        Ok(None)
    } else if bytes[0] & SECURE != 0 {
        Err(c.refused("its security flags", bytes[0] as u64))
    } else if bytes.len() == 1 || (bytes[1] >= LONG_LENGTH && bytes.len() == 2) {
        Ok(None)
    } else {
        let start: int = if bytes[1] < LONG_LENGTH { 2 } else { 3 };
        let length = if bytes[1] < LONG_LENGTH {
            bytes[1] as int
        } else {
            (bytes[1] - LONG_LENGTH) * 0x100 + bytes[2]
        };
        if length < start {
            Err(c.refused("its length", length as u64))
        } else {
            Ok(Some(Header { start: start as usize, length: length as usize }))
        }
    }
}

fn header(bytes: &[u8]) -> (res: Result<Option<Header>, Malformed>)
    ensures
        res == header_spec(bytes@),
        res matches Ok(Some(h)) ==> 2 <= h.start <= h.length <= 0x7FFF && h.start <= bytes@.len(),
{
    let r = Reader::new(HEADER, bytes);
    if bytes.len() == 0 {
        return Ok(None);
    }
    if bytes[0] & SECURE != 0 {
        return Err(r.refuse("its security flags", bytes[0] as u64));
    }
    if bytes.len() == 1 {
        return Ok(None);
    }
    let short: u8 = bytes[1];
    let (start, length): (usize, usize) = if short < LONG_LENGTH {
        (2, short as usize)
    } else {
        if bytes.len() == 2 {
            return Ok(None);
        }
        (3, (short - LONG_LENGTH) as usize * 0x100 + bytes[2] as usize)
    };
    // The length counts the header it is part of, so a PDU claiming less than it has
    // already spent is one no reader can go on from.
    if length < start {
        return Err(r.refuse("its length", length as u64));
    }
    Ok(Some(Header { start, length }))
}

/// How long the fast-path PDU beginning at `bytes` says it is.
pub open spec fn frame_length_spec(bytes: Seq<u8>) -> Result<Option<usize>, Malformed> {
    match header_spec(bytes) {
        Err(e) => Err(e),
        Ok(None) => Ok(None),
        Ok(Some(h)) => Ok(Some(h.length)),
    }
}

/// How long the fast-path PDU beginning at `bytes` is in total, its own header
/// and all.
///
/// `None` while that cannot be known yet, which is until two bytes are in hand, or
/// three, when the second says the length is a long one. A caller reads what it is
/// short of and asks again; there is never a fourth byte to wait for.
pub fn frame_length(bytes: &[u8]) -> (res: Result<Option<usize>, Malformed>)
    ensures
        res == frame_length_spec(bytes@),
        res matches Ok(Some(length)) ==> length >= 2,
{
    match header(bytes)? {
        None => Ok(None),
        Some(h) => Ok(Some(h.length)),
    }
}

/// Whether this piece is a whole update, or where it sits in one that was cut up.
#[derive(Clone, Copy, Debug, PartialEq, Eq)]
pub enum Fragment {
    /// `FASTPATH_FRAGMENT_SINGLE`.
    Single,
    /// `FASTPATH_FRAGMENT_LAST`.
    Last,
    /// `FASTPATH_FRAGMENT_FIRST`.
    First,
    /// `FASTPATH_FRAGMENT_NEXT`.
    Next,
}

/// One update, or one piece of one.
#[derive(Clone, Copy, Debug, PartialEq, Eq)]
pub struct Piece<'a> {
    /// One of the update types above.
    pub code: u8,
    pub fragment: Fragment,
    pub data: &'a [u8],
}

/// A [`Piece`], its data by its contents.
pub struct PieceView {
    pub code: u8,
    pub fragment: Fragment,
    pub data: Seq<u8>,
}

impl<'a> View for Piece<'a> {
    type V = PieceView;

    open spec fn view(&self) -> PieceView {
        PieceView { code: self.code, fragment: self.fragment, data: self.data@ }
    }
}

/// One whole update, however many pieces it arrived in.
#[derive(Clone, Copy, Debug, PartialEq, Eq)]
pub struct Update<'a> {
    pub code: u8,
    pub data: &'a [u8],
}

/// An [`Update`], its data by its contents.
pub struct UpdateView {
    pub code: u8,
    pub data: Seq<u8>,
}

impl<'a> View for Update<'a> {
    type V = UpdateView;

    open spec fn view(&self) -> UpdateView {
        UpdateView { code: self.code, data: self.data@ }
    }
}

/// The updates of a whole PDU: as many bytes as its length says, past its header.
pub open spec fn updates_spec(frame: Seq<u8>) -> Result<Cursor, Malformed> {
    match header_spec(frame) {
        Err(e) => Err(e),
        Ok(None) => Err(
            Malformed::Short {
                what: PDU,
                len: frame.len() as usize,
                at: frame.len() as usize,
                need: 1,
            },
        ),
        Ok(Some(h)) => match cursor(PDU, frame).skip(h.start as int) {
            Step::Stop(e) => Err(e),
            Step::Got(_, c) => match c.bytes(h.length - h.start) {
                Step::Stop(e) => Err(e),
                Step::Got(updates, _) => Ok(cursor(UPDATE, updates)),
            },
        },
    }
}

/// Every update in one whole fast-path output PDU, in order.
pub fn updates(frame: &[u8]) -> (res: Result<Updates<'_>, Malformed>)
    ensures
        match res {
            Ok(all) => updates_spec(frame@) == Ok::<Cursor, Malformed>(all.at()),
            Err(e) => updates_spec(frame@) == Err::<Cursor, Malformed>(e),
        },
{
    let h = match header(frame)? {
        Some(h) => h,
        None => {
            return Err(Malformed::Short { what: PDU, len: frame.len(), at: frame.len(), need: 1 });
        },
    };
    let mut r = Reader::new(PDU, frame);
    // The declared length is what the PDU is. Reading to the end of the buffer
    // instead would hand on whatever a caller read past it.
    r.skip(h.start)?;
    let updates = r.bytes(h.length - h.start)?;
    Ok(Updates { r: Reader::new(UPDATE, updates) })
}

/// The walk [`updates`] hands back.
pub struct Updates<'a> {
    r: Reader<'a>,
}

/// What an update's header says of its fragmentation.
pub open spec fn fragment_of(header: u8) -> Fragment {
    if header & FRAGMENT == 0x00 {
        Fragment::Single
    } else if header & FRAGMENT == 0x10 {
        Fragment::Last
    } else if header & FRAGMENT == 0x20 {
        Fragment::First
    } else {
        Fragment::Next
    }
}

/// The length and data of an update whose header has been read.
pub open spec fn body_step(c: Cursor, header: u8) -> Step<PieceView> {
    match c.u16_le() {
        Step::Stop(e) => Step::Stop(e),
        Step::Got(length, c) => match c.bytes(length as int) {
            Step::Stop(e) => Step::Stop(e),
            Step::Got(data, c) => Step::Got(
                PieceView { code: header & CODE, fragment: fragment_of(header), data },
                c,
            ),
        },
    }
}

pub open spec fn piece_step(c: Cursor) -> Step<PieceView> {
    match c.u8() {
        Step::Stop(e) => Step::Stop(e),
        Step::Got(header, c) => if header & COMPRESSION == 0 {
            body_step(c, header)
        } else if header & COMPRESSION == COMPRESSION_USED {
            match c.u8() {
                Step::Stop(e) => Step::Stop(e),
                Step::Got(flags, c) => if flags & PACKET_COMPRESSED != 0 {
                    Step::Stop(c.refused("its compression flags", flags as u64))
                } else {
                    body_step(c, header)
                },
            }
        } else {
            Step::Stop(c.refused("its compression", (header & COMPRESSION) as u64))
        },
    }
}

/// The updates from a place on, in order, and what is wrong with the one after them, if
/// one cannot be read: what taking the next until there is none, or a fault, comes to.
pub open spec fn pieces_from(c: Cursor) -> (Seq<PieceView>, Option<Malformed>)
    decreases c.left(),
{
    if c.left() == 0 {
        (seq![], None)
    } else {
        match piece_step(c) {
            Step::Stop(e) => (seq![], Some(e)),
            Step::Got(piece, after) => if 0 <= after.left() < c.left() {
                let (rest, e) = pieces_from(after);
                (seq![piece] + rest, e)
            } else {
                (seq![piece], None)
            },
        }
    }
}

impl<'a> Updates<'a> {
    /// Where the next update starts.
    pub closed spec fn at(&self) -> Cursor {
        self.r@
    }

    /// The next update, or `None` at the end of the PDU.
    pub fn next(&mut self) -> (res: Option<Result<Piece<'a>, Malformed>>)
        ensures
            match res {
                None => old(self).at().left() == 0 && final(self).at() == old(self).at(),
                Some(next) => old(self).at().left() != 0 && view_steps(
                    next,
                    final(self).at(),
                    piece_step(old(self).at()),
                ),
            },
            pieces_from(old(self).at()) == (match res {
                None => (Seq::<PieceView>::empty(), None::<Malformed>),
                Some(Ok(piece)) => (
                    seq![piece@] + pieces_from(final(self).at()).0,
                    pieces_from(final(self).at()).1,
                ),
                Some(Err(e)) => (Seq::<PieceView>::empty(), Some(e)),
            }),
            final(self).at().within(),
    {
        if self.r.is_empty() {
            return None;
        }
        Some(self.piece())
    }

    fn piece(&mut self) -> (res: Result<Piece<'a>, Malformed>)
        ensures
            view_steps(res, final(self).at(), piece_step(old(self).at())),
            final(self).at().within(),
    {
        let header = self.r.u8()?;
        match header & COMPRESSION {
            0 => {},
            COMPRESSION_USED => {
                let flags = self.r.u8()?;
                if flags & PACKET_COMPRESSED != 0 {
                    return Err(self.r.refuse("its compression flags", flags as u64));
                }
            },
            other => {
                return Err(self.r.refuse("its compression", other as u64));
            },
        }
        let length = self.r.u16_le()?;
        let data = self.r.bytes(length as usize)?;
        let fragment = match header & FRAGMENT {
            0x00 => Fragment::Single,
            0x10 => Fragment::Last,
            0x20 => Fragment::First,
            _ => Fragment::Next,
        };
        Ok(Piece { code: header & CODE, fragment, data })
    }
}

/// An update being put back together out of pieces.
///
/// One at a time: [MS-RDPBCGR] does not let a server begin a second update before it
/// has finished the first, and a client that allowed it would be holding an unbounded
/// number of half-updates on a server's say-so.
pub struct Fragments {
    /// The type of the update in progress, taken from its first piece. The pieces
    /// after it carry one too, and it is not read: what an update is was settled when
    /// it began.
    code: Option<u8>,
    buffer: Vec<u8>,
    limit: usize,
}

/// The update in progress, if there is one, and the most one may come to.
pub struct FragmentsView {
    pub open: Option<UpdateView>,
    pub limit: nat,
}

impl View for Fragments {
    type V = FragmentsView;

    closed spec fn view(&self) -> FragmentsView {
        FragmentsView {
            open: match self.code {
                Some(code) => Some(UpdateView { code, data: self.buffer@ }),
                None => None,
            },
            limit: self.limit as nat,
        }
    }
}

impl FragmentsView {
    pub open spec fn abandoned(self) -> FragmentsView {
        FragmentsView { open: None, ..self }
    }

    /// A piece added to an update of type `code` that holds `held` so far.
    pub open spec fn gathered(self, code: u8, held: Seq<u8>, data: Seq<u8>, last: bool) -> (
        FragmentsView,
        Result<Option<UpdateView>, Malformed>,
    ) {
        let whole = held + data;
        if whole.len() > self.limit {
            (
                self.abandoned(),
                Err(
                    Malformed::Refused {
                        what: REASSEMBLED,
                        field: "a total length",
                        value: whole.len() as u64,
                    },
                ),
            )
        } else if last {
            (self.abandoned(), Ok(Some(UpdateView { code, data: whole })))
        } else {
            (FragmentsView { open: Some(UpdateView { code, data: whole }), ..self }, Ok(None))
        }
    }

    /// What one piece does: the update it completes, or what was wrong with it.
    pub open spec fn pushed(self, piece: PieceView) -> (
        FragmentsView,
        Result<Option<UpdateView>, Malformed>,
    ) {
        let refused = |field: &'static str|
            Err(Malformed::Refused { what: UPDATE, field, value: piece.code as u64 });
        match (piece.fragment, self.open) {
            (Fragment::Single, Some(_)) => (
                self.abandoned(),
                refused("a whole update inside an unfinished one"),
            ),
            (Fragment::Single, None) => (
                self,
                Ok(Some(UpdateView { code: piece.code, data: piece.data })),
            ),
            (Fragment::First, Some(_)) => (
                self.abandoned(),
                refused("a first fragment inside an unfinished update"),
            ),
            (Fragment::First, None) => self.gathered(piece.code, seq![], piece.data, false),
            (_, None) => (self.abandoned(), refused("a fragment that continues nothing")),
            (Fragment::Next, Some(update)) => self.gathered(
                update.code,
                update.data,
                piece.data,
                false,
            ),
            (Fragment::Last, Some(update)) => self.gathered(
                update.code,
                update.data,
                piece.data,
                true,
            ),
        }
    }
}

/// Whether an outcome that borrows is the one wanted.
pub open spec fn completes(
    res: Result<Option<Update<'_>>, Malformed>,
    want: Result<Option<UpdateView>, Malformed>,
) -> bool {
    match (res, want) {
        (Ok(Some(update)), Ok(Some(w))) => update@ == w,
        (Ok(None), Ok(None)) => true,
        (Err(e), Err(w)) => e == w,
        _ => false,
    }
}

impl Fragments {
    /// `limit` is the Multifragment Update capability the two ends settled on: the
    /// most bytes one reassembled update may come to.
    pub fn new(limit: u32) -> (f: Fragments)
        ensures
            f@ == (FragmentsView { open: None, limit: limit as nat }),
    {
        Fragments { code: None, buffer: Vec::new(), limit: limit as usize }
    }

    /// Add one piece, and hand back the update if this piece completed it.
    ///
    /// A whole update borrows either the piece, which is nearly every update, since
    /// most are far smaller than a frame, or the buffer its pieces were gathered into.
    pub fn push<'a>(&'a mut self, piece: Piece<'a>) -> (res: Result<Option<Update<'a>>, Malformed>)
        ensures
            final(self)@ == old(self)@.pushed(piece@).0,
            completes(res, old(self)@.pushed(piece@).1),
    {
        match piece.fragment {
            Fragment::Single => {
                if self.code.is_some() {
                    return Err(self.abandon("a whole update inside an unfinished one", piece.code));
                }
                Ok(Some(Update { code: piece.code, data: piece.data }))
            },
            Fragment::First => {
                if self.code.is_some() {
                    return Err(
                        self.abandon("a first fragment inside an unfinished update", piece.code),
                    );
                }
                self.code = Some(piece.code);
                self.buffer.clear();
                assert(self.buffer@ =~= seq![]);
                self.gather(piece.data)?;
                Ok(None)
            },
            Fragment::Next => {
                if self.code.is_none() {
                    return Err(self.abandon("a fragment that continues nothing", piece.code));
                }
                self.gather(piece.data)?;
                Ok(None)
            },
            Fragment::Last => {
                let code = match self.code {
                    Some(code) => code,
                    None => {
                        return Err(self.abandon("a fragment that continues nothing", piece.code));
                    },
                };
                self.gather(piece.data)?;
                self.code = None;
                Ok(Some(Update { code, data: self.buffer.as_slice() }))
            },
        }
    }

    fn gather(&mut self, data: &[u8]) -> (res: Result<(), Malformed>)
        requires
            old(self).code is Some,
        ensures
            final(self).limit == old(self).limit,
            ({
                let (after, want) = old(self)@.gathered(
                    old(self).code->0,
                    old(self).buffer@,
                    data@,
                    false,
                );
                &&& final(self)@ == after
                &&& match res {
                    Ok(_) => want is Ok && final(self).code == old(self).code && final(self).buffer@ == old(
                        self,
                    ).buffer@ + data@,
                    Err(e) => want == Err::<Option<UpdateView>, Malformed>(e),
                }
            }),
    {
        let total: u128 = self.buffer.len() as u128 + data.len() as u128;
        if total > self.limit as u128 {
            self.forget();
            return Err(
                Malformed::Refused { what: REASSEMBLED, field: "a total length", value: total as u64 },
            );
        }
        self.buffer.extend_from_slice(data);
        assert(self.buffer@ =~= old(self).buffer@ + data@);
        Ok(())
    }

    /// Forget what was being reassembled, and say why it was given up on.
    ///
    /// The connection ends on this error, so the state matters only in that nothing
    /// half-read should outlive the sentence that explains it.
    fn abandon(&mut self, field: &'static str, code: u8) -> (e: Malformed)
        ensures
            final(self)@ == old(self)@.abandoned(),
            e == (Malformed::Refused { what: UPDATE, field, value: code as u64 }),
    {
        self.forget();
        Malformed::Refused { what: UPDATE, field, value: code as u64 }
    }

    fn forget(&mut self)
        ensures
            final(self)@ == old(self)@.abandoned(),
            final(self).limit == old(self).limit,
    {
        self.code = None;
        self.buffer.clear();
    }
}

/// A piece cut out of an update: where it sits, and a run of its bytes.
pub open spec fn cut(code: u8, fragment: Fragment, data: Seq<u8>) -> PieceView {
    PieceView { code, fragment, data }
}

/// An update cut into a first piece, any number in between, and a last one comes back
/// whole, of the type its first piece named, where it is within the limit; and the next
/// one may begin.
pub proof fn a_cut_update_comes_back_whole(
    start: FragmentsView,
    code: u8,
    first: Seq<u8>,
    between: Seq<Seq<u8>>,
    last: Seq<u8>,
)
    requires
        start.open is None,
        (first + joined(between) + last).len() <= start.limit,
    ensures
        ({
            let begun = start.pushed(cut(code, Fragment::First, first)).0;
            let held = continued(begun, between);
            held.pushed(cut(code, Fragment::Last, last)) == (
                start,
                Ok::<Option<UpdateView>, Malformed>(
                    Some(UpdateView { code, data: first + joined(between) + last }),
                ),
            )
        }),
{
    let begun = start.pushed(cut(code, Fragment::First, first)).0;
    assert(Seq::<u8>::empty() + first =~= first);
    continuing(begun, code, first, between);
}

/// Runs of bytes, one after another.
pub open spec fn joined(parts: Seq<Seq<u8>>) -> Seq<u8>
    decreases parts.len(),
{
    if parts.len() == 0 { seq![] } else { joined(parts.drop_last()) + parts.last() }
}

/// What a run of pieces that continue an update leaves.
pub open spec fn continued(start: FragmentsView, parts: Seq<Seq<u8>>) -> FragmentsView
    decreases parts.len(),
{
    if parts.len() == 0 {
        start
    } else {
        continued(start, parts.drop_last()).pushed(cut(0, Fragment::Next, parts.last())).0
    }
}

proof fn continuing(begun: FragmentsView, code: u8, held: Seq<u8>, parts: Seq<Seq<u8>>)
    requires
        begun.open == Some(UpdateView { code, data: held }),
        (held + joined(parts)).len() <= begun.limit,
    ensures
        continued(begun, parts) == (FragmentsView {
            open: Some(UpdateView { code, data: held + joined(parts) }),
            limit: begun.limit,
        }),
    decreases parts.len(),
{
    if parts.len() > 0 {
        continuing(begun, code, held, parts.drop_last());
        assert(held + joined(parts.drop_last()) + parts.last() =~= held + joined(parts));
    } else {
        assert(held + joined(parts) =~= held);
    }
}

/// The declared length is what a PDU is: with fewer bytes than that it is short, and with
/// more, those past it are never read.
pub proof fn bytes_past_the_length_change_nothing(frame: Seq<u8>)
    requires
        frame_length_spec(frame) matches Ok(Some(_)),
    ensures
        ({
            let n = frame_length_spec(frame)->Ok_0->Some_0;
            if frame.len() < n {
                updates_spec(frame) matches Err(Malformed::Short { .. })
            } else {
                updates_spec(frame) is Ok && updates_spec(frame) == updates_spec(frame.take(n as int))
            }
        }),
{
    let h = header_spec(frame)->Ok_0->Some_0;
    if h.length <= frame.len() {
        let cut = frame.take(h.length as int);
        assert(header_spec(cut) == header_spec(frame));
        assert(cut.subrange(h.start as int, h.length as int) =~= frame.subrange(
            h.start as int,
            h.length as int,
        ));
    }
}

/// An update as it is written: its header, the length of its data, and its data.
pub struct Written {
    pub header: u8,
    pub data: Seq<u8>,
}

impl Written {
    /// It is not marked as compressed, and its length can be written.
    pub open spec fn fits(self) -> bool {
        self.header & COMPRESSION == 0 && self.data.len() <= 0xFFFF
    }

    pub open spec fn bytes(self) -> Seq<u8> {
        seq![self.header] + le16(self.data.len() as u16) + self.data
    }

    /// What it reads as.
    pub open spec fn piece(self) -> PieceView {
        PieceView { code: self.header & CODE, fragment: fragment_of(self.header), data: self.data }
    }
}

pub open spec fn all_fit(list: Seq<Written>) -> bool {
    forall|i: int| 0 <= i < list.len() ==> (#[trigger] list[i]).fits()
}

/// Updates one after another.
pub open spec fn laid_out(list: Seq<Written>) -> Seq<u8>
    decreases list.len(),
{
    if list.len() == 0 { seq![] } else { list[0].bytes() + laid_out(list.skip(1)) }
}

/// A whole PDU: its first byte, its length, and its updates.
pub open spec fn frame_bytes(first: u8, list: Seq<Written>) -> Seq<u8> {
    let body = laid_out(list);
    if body.len() + 2 < LONG_LENGTH {
        seq![first, (body.len() + 2) as u8] + body
    } else {
        let length = body.len() + 3;
        seq![first, (LONG_LENGTH + length / 0x100) as u8, (length % 0x100) as u8] + body
    }
}

proof fn pieces_read_back(c: Cursor, list: Seq<Written>)
    requires
        all_fit(list),
        c.faces(laid_out(list)),
        c.left() == laid_out(list).len(),
    ensures
        pieces_from(c) == (list.map_values(|w: Written| w.piece()), None::<Malformed>),
    decreases list.len(),
{
    let want = list.map_values(|w: Written| w.piece());
    if list.len() == 0 {
        assert(want =~= seq![]);
    } else {
        let (w, rest) = (list[0], list.skip(1));
        let head = w.bytes();
        let length = w.data.len() as u16;
        assert(w.fits());
        facing_both(c, head, laid_out(rest));
        facing(c, head);
        assert(c.bytes[c.at + 0] == head[0] && head[0] == w.header);
        assert(c.bytes[c.at + 1] == head[1] && head[1] == le16(length)[0]);
        assert(c.bytes[c.at + 2] == head[2] && head[2] == le16(length)[1]);
        assert(le16_at(c.bytes, c.at + 1) == length);
        let d = c.plus(1).plus(2);
        assert(d.bytes.subrange(d.at, d.at + length) =~= w.data) by {
            let got = d.bytes.subrange(d.at, d.at + length);
            assert forall|i: int| 0 <= i < length implies #[trigger] got[i] == w.data[i] by {
                assert(head[3 + i] == w.data[i]);
            }
        }
        let after = d.plus(length as int);
        assert(after == c.plus(head.len() as int));
        assert(piece_step(c) == Step::Got(w.piece(), after));
        assert forall|i: int| 0 <= i < rest.len() implies (#[trigger] rest[i]).fits() by {
            assert(rest[i] == list[i + 1]);
        }
        pieces_read_back(after, rest);
        assert(want =~= seq![w.piece()] + rest.map_values(|w: Written| w.piece()));
    }
}

/// A PDU built of updates gives them back in the order they were written in, each with its
/// code, its data, and where it sits in an update that was cut up.
pub proof fn updates_come_out_as_they_were_written(first: u8, list: Seq<Written>)
    requires
        first & SECURE == 0,
        all_fit(list),
        laid_out(list).len() + 3 <= 0x7FFF,
    ensures
        match updates_spec(frame_bytes(first, list)) {
            Err(_) => false,
            Ok(c) => pieces_from(c) == (list.map_values(|w: Written| w.piece()), None::<Malformed>),
        },
        forall|header: u8| {
            &&& header & 0x30 == 0 ==> #[trigger] fragment_of(header) == Fragment::Single
            &&& header & 0x30 == 0x10 ==> fragment_of(header) == Fragment::Last
            &&& header & 0x30 == 0x20 ==> fragment_of(header) == Fragment::First
            &&& header & 0x30 == 0x30 ==> fragment_of(header) == Fragment::Next
        },
{
    let body = laid_out(list);
    let frame = frame_bytes(first, list);
    let start: int = if body.len() + 2 < LONG_LENGTH { 2 } else { 3 };
    assert(frame[0] == first);
    assert(header_spec(frame) == Ok::<Option<Header>, Malformed>(
        Some(Header { start: start as usize, length: frame.len() as usize }),
    ));
    assert(frame.subrange(start, frame.len() as int) =~= body);
    assert(body.subrange(0, body.len() as int) =~= body);
    pieces_read_back(cursor(UPDATE, body), list);
}

} // verus!
