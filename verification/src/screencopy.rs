//! Capturing an output with `wlr-screencopy`: what the compositor says of a
//! frame, and what to do about it.
//!
//! A buffer that the graphics card can fill is preferred; shared memory is used
//! where there is none, or where the compositor turns it down.

use crate::capture::DamageRegion;
use crate::convert::{convert_bgrx_to_rgba_inplace, rgba_of_bgrx};
use vstd::prelude::*;

verus! {

/// 32 bits a pixel: blue, green, red and a byte without meaning.
pub const DRM_FORMAT_XRGB8888: u32 = 0x3432_5258;

/// 32 bits a pixel: blue, green, red and alpha.
pub const DRM_FORMAT_ARGB8888: u32 = 0x3432_5241;

/// 32 bits a pixel: red, green, blue and a byte without meaning.
pub const DRM_FORMAT_XBGR8888: u32 = 0x3432_4258;

/// 32 bits a pixel: red, green, blue and alpha.
pub const DRM_FORMAT_ABGR8888: u32 = 0x3432_4241;

/// PipeWire's name for red, green, blue and alpha.
pub const SPA_VIDEO_FORMAT_RGBA: u32 = 11;

/// Bytes with every fourth one set to 255.
pub open spec fn made_opaque(data: Seq<u8>) -> Seq<u8> {
    Seq::new(
        data.len(),
        |j: int| if j % 4 == 3 { 255 } else { data[j] },
    )
}

/// The RGBA bytes of captured pixels. A format that is not known is taken for
/// XRGB8888.
pub open spec fn captured_rgba(data: Seq<u8>, format: u32, pixels: nat) -> Seq<u8> {
    if format == DRM_FORMAT_ABGR8888 {
        data
    } else if format == DRM_FORMAT_XBGR8888 {
        made_opaque(data)
    } else {
        rgba_of_bgrx(data, pixels)
    }
}

fn copy_bytes(data: &[u8], dst: &mut Vec<u8>)
    ensures
        final(dst)@ == data@,
{
    dst.clear();
    dst.extend_from_slice(data);
    assert(dst@ =~= data@);
}

/// Converts captured pixels to RGBA, into `dst`, whatever it held before.
pub fn to_rgba(data: &[u8], format: u32, width: u32, height: u32, dst: &mut Vec<u8>)
    requires
        width * height <= u32::MAX,
        width * height * 4 <= data@.len(),
    ensures
        final(dst)@ == captured_rgba(data@, format, (width * height) as nat),
{
    if format == DRM_FORMAT_ABGR8888 {
        copy_bytes(data, dst);
    } else if format == DRM_FORMAT_XBGR8888 {
        copy_bytes(data, dst);
        let n: usize = dst.len();
        let mut k: usize = 0;
        while n - k >= 4
            invariant
                k <= n,
                n == dst@.len(),
                n == data@.len(),
                k % 4 == 0,
                forall|j: int| 0 <= j < k ==> #[trigger] dst@[j] == made_opaque(data@)[j],
                forall|j: int| k <= j < n ==> #[trigger] dst@[j] == data@[j],
            decreases n - k,
        {
            dst.set(k + 3, 255);
            k += 4;
        }
        assert(dst@ =~= made_opaque(data@));
    } else {
        convert_bgrx_to_rgba_inplace(data, width, height, dst);
    }
}

/// The RGBA bytes of pixels from PipeWire. A format that is not known is taken
/// for BGRX.
pub open spec fn portal_rgba(data: Seq<u8>, format: u32, pixels: nat) -> Seq<u8> {
    if format == SPA_VIDEO_FORMAT_RGBA {
        data
    } else {
        rgba_of_bgrx(data, pixels)
    }
}

/// Converts pixels from PipeWire to RGBA, into `dst`, whatever it held before.
pub fn portal_to_rgba(data: &[u8], format: u32, width: u32, height: u32, dst: &mut Vec<u8>)
    requires
        width * height <= u32::MAX,
        width * height * 4 <= data@.len(),
    ensures
        final(dst)@ == portal_rgba(data@, format, (width * height) as nat),
{
    if format == SPA_VIDEO_FORMAT_RGBA {
        copy_bytes(data, dst);
    } else {
        convert_bgrx_to_rgba_inplace(data, width, height, dst);
    }
}

/// A buffer modifier from its two halves.
pub fn modifier(high: u32, low: u32) -> (m: u64)
    ensures
        m == put_together(high, low),
        m == high * 0x1_0000_0000 + low,
{
    high as u64 * 0x1_0000_0000 + low as u64
}

/// Whether the compositor takes buffers of this format in plain rows.
pub open spec fn takes_linear(supported: Seq<(u32, u64)>, format: u32) -> bool {
    supported.contains((format, 0u64))
}

/// Whether the compositor takes buffers of this format in plain rows.
pub fn has_linear(supported: &Vec<(u32, u64)>, format: u32) -> (b: bool)
    ensures
        b == takes_linear(supported@, format),
{
    let mut k: usize = 0;
    while k < supported.len()
        invariant
            k <= supported@.len(),
            forall|j: int| 0 <= j < k ==> supported@[j] != (format, 0u64),
        decreases supported@.len() - k,
    {
        let (f, m) = supported[k];
        if f == format && m == 0 {
            assert(supported@[k as int] == (format, 0u64));
            return true;
        }
        k += 1;
    }
    false
}

/// What the compositor says of the frame being captured.
pub enum CopyEvent {
    /// The shared-memory buffer that it wants. The format is `None` where it is
    /// not known.
    Buffer { format: Option<u32>, width: u32, height: u32, stride: u32 },
    /// The graphics-card buffer that it would take.
    LinuxDmabuf { format: u32, width: u32, height: u32 },
    /// All kinds of buffers were named.
    BufferDone,
    Damage(DamageRegion),
    Ready,
    Failed,
}

/// A graphics-card buffer.
#[derive(Clone, Copy, Debug, PartialEq, Eq, Structural)]
pub struct DmaShape {
    pub width: u32,
    pub height: u32,
    pub format: u32,
}

/// A shared-memory buffer.
#[derive(Clone, Copy, Debug, PartialEq, Eq, Structural)]
pub struct ShmShape {
    pub width: u32,
    pub height: u32,
    pub stride: u32,
    /// The compositor's number of the format, if it named one that is known.
    pub format: Option<u32>,
}

/// What is known of the frame being captured.
pub struct FrameInfo {
    pub shm: Option<ShmShape>,
    pub dma: Option<DmaShape>,
    pub buffer_done: bool,
    pub ready: bool,
    pub failed: bool,
    pub damage: Vec<DamageRegion>,
}

/// What is known of a frame, as a value.
#[verifier::ext_equal]
pub struct Hints {
    pub shm: Option<ShmShape>,
    pub dma: Option<DmaShape>,
    pub buffer_done: bool,
    pub ready: bool,
    pub failed: bool,
    pub damage: Seq<DamageRegion>,
}

impl View for FrameInfo {
    type V = Hints;

    open spec fn view(&self) -> Hints {
        Hints {
            shm: self.shm,
            dma: self.dma,
            buffer_done: self.buffer_done,
            ready: self.ready,
            failed: self.failed,
            damage: self.damage@,
        }
    }
}

/// Nothing is known of a frame that was just asked for.
pub open spec fn no_hints() -> Hints {
    Hints {
        shm: None,
        dma: None,
        buffer_done: false,
        ready: false,
        failed: false,
        damage: Seq::empty(),
    }
}

/// What is known after an event. A shared-memory buffer of a format that is not
/// known is passed over.
pub open spec fn noted(h: Hints, event: CopyEvent) -> Hints {
    match event {
        CopyEvent::Buffer { format, width, height, stride } => match format {
            Some(_) => Hints { shm: Some(ShmShape { width, height, stride, format }), ..h },
            None => h,
        },
        CopyEvent::LinuxDmabuf { format, width, height } => Hints {
            dma: Some(DmaShape { width, height, format }),
            ..h
        },
        CopyEvent::BufferDone => Hints { buffer_done: true, ..h },
        CopyEvent::Damage(region) => Hints { damage: h.damage.push(region), ..h },
        CopyEvent::Ready => Hints { ready: true, ..h },
        CopyEvent::Failed => Hints { failed: true, ..h },
    }
}

/// Whether enough is known to go on. A compositor without graphics-card buffers
/// may not say when it is done.
pub open spec fn hints_complete(h: Hints, dmabuf: bool) -> bool {
    h.failed || h.buffer_done || (h.shm is Some && !dmabuf)
}

impl FrameInfo {
    pub fn new() -> (f: Self)
        ensures
            f@ == no_hints(),
    {
        let f = FrameInfo {
            shm: None,
            dma: None,
            buffer_done: false,
            ready: false,
            failed: false,
            damage: Vec::new(),
        };
        assert(f@ =~= no_hints());
        f
    }

    /// Takes in an event.
    pub fn note(&mut self, event: CopyEvent)
        ensures
            final(self)@ == noted(old(self)@, event),
    {
        match event {
            CopyEvent::Buffer { format, width, height, stride } => {
                if format.is_some() {
                    self.shm = Some(ShmShape { width, height, stride, format });
                }
            },
            CopyEvent::LinuxDmabuf { format, width, height } => {
                self.dma = Some(DmaShape { width, height, format });
            },
            CopyEvent::BufferDone => {
                self.buffer_done = true;
            },
            CopyEvent::Damage(region) => {
                self.damage.push(region);
            },
            CopyEvent::Ready => {
                self.ready = true;
            },
            CopyEvent::Failed => {
                self.failed = true;
            },
        }
        assert(self@ =~= noted(old(self)@, event));
    }

    fn is_complete(&self, dmabuf: bool) -> (b: bool)
        ensures
            b == hints_complete(self@, dmabuf),
    {
        self.failed || self.buffer_done || (self.shm.is_some() && !dmabuf)
    }
}

/// Where the capture of a frame stands.
#[derive(Clone, Copy, Debug, PartialEq, Eq, Structural)]
pub enum Stage {
    /// Between frames.
    Idle,
    /// A frame was asked for. The second try is for shared memory only.
    Asked { second: bool },
    /// Waiting to hear what buffer the compositor takes.
    Hinting { second: bool },
    /// A graphics-card buffer is being made.
    MakingDma,
    /// The compositor fills the graphics-card buffer.
    CopyingDma,
    /// A shared-memory buffer is being made.
    MakingShm,
    /// The compositor fills the shared-memory buffer.
    CopyingShm,
    /// The frame is being handed on.
    Delivering,
    Over,
}

/// What to do next.
#[derive(Clone, Copy, Debug, PartialEq, Eq, Structural)]
pub enum Step {
    /// Ask for a frame.
    Request,
    /// Wait for the next events.
    Dispatch,
    /// Make a graphics-card buffer.
    MakeDma(DmaShape),
    /// Have the graphics-card buffer filled.
    CopyDma,
    /// Let the frame and the graphics-card buffer go, and ask for a frame again.
    RequestAgain,
    /// Make a shared-memory buffer.
    MakeShm(ShmShape),
    /// Have the shared-memory buffer filled.
    CopyShm,
    /// Convert the graphics-card buffer, let the frame go and hand it on.
    DeliverDma(DmaShape),
    /// Convert the shared-memory buffer, let the frame go and hand it on.
    DeliverShm(ShmShape),
    /// Let the frame go: there is no buffer that can be used.
    Skip,
    /// Sleep for the rest of the frame's time.
    Rest,
    /// Stop: that was asked for.
    Finish,
    /// Stop: the compositor could not capture.
    FailFrame,
    /// Stop: nobody takes the frames any more.
    FailConsumer,
}

/// How the last step went.
#[derive(Clone, Copy, Debug, PartialEq, Eq, Structural)]
pub enum Progress {
    /// Between frames; `stop` says whether to stop.
    Tick { stop: bool },
    /// Requests were sent out, or events came in.
    Moved,
    /// A buffer was made, or could not be.
    Made { ok: bool },
    /// The frame was handed on, or dropped because the consumer is busy.
    Sent,
    /// The consumer is gone.
    ConsumerGone,
}

/// The capture of one output, as a value.
#[verifier::ext_equal]
pub struct Capturing {
    pub stage: Stage,
    /// Whether the graphics card can be used.
    pub card: bool,
    /// Whether the compositor takes graphics-card buffers.
    pub dmabuf: bool,
    pub supported: Seq<(u32, u64)>,
    pub hints: Hints,
    /// The buffers at hand.
    pub dma: Option<DmaShape>,
    pub shm: Option<ShmShape>,
    /// The damage of the frame being captured.
    pub damage: Seq<DamageRegion>,
}

/// Whether a graphics-card buffer is to be tried.
pub open spec fn tries_dma(c: Capturing) -> bool {
    c.card && c.dmabuf && (c.hints.dma matches Some(shape) && takes_linear(
        c.supported,
        shape.format,
    ))
}

/// Whether a shared-memory buffer is of another size.
pub open spec fn other_size(at_hand: Option<ShmShape>, wanted: ShmShape) -> bool {
    match at_hand {
        Some(b) => b.width != wanted.width || b.height != wanted.height,
        None => true,
    }
}

/// The capture goes on with shared memory.
pub open spec fn with_shm(c: Capturing) -> (Capturing, Step) {
    match c.hints.shm {
        None => (Capturing { stage: Stage::Idle, ..c }, Step::Skip),
        Some(shape) => if other_size(c.shm, shape) {
            (Capturing { stage: Stage::MakingShm, ..c }, Step::MakeShm(shape))
        } else {
            (Capturing { stage: Stage::CopyingShm, ..c }, Step::CopyShm)
        },
    }
}

/// The capture goes on once the compositor has named its buffers.
pub open spec fn with_hints(c: Capturing, second: bool) -> (Capturing, Step) {
    let d = Capturing { damage: c.hints.damage, ..c };
    if c.hints.failed {
        (Capturing { stage: Stage::Over, ..c }, Step::FailFrame)
    } else if !second && tries_dma(c) {
        if c.dma == c.hints.dma {
            (Capturing { stage: Stage::CopyingDma, ..d }, Step::CopyDma)
        } else {
            (Capturing { stage: Stage::MakingDma, ..d }, Step::MakeDma(c.hints.dma->0))
        }
    } else {
        with_shm(d)
    }
}

/// The capture ends.
pub open spec fn ended(c: Capturing, step: Step) -> (Capturing, Step) {
    (Capturing { stage: Stage::Over, ..c }, step)
}

/// What a capture does next.
pub open spec fn moved_on(c: Capturing, p: Progress) -> (Capturing, Step) {
    match (c.stage, p) {
        (Stage::Idle, Progress::Tick { stop }) => if stop {
            ended(c, Step::Finish)
        } else {
            (
                Capturing { stage: Stage::Asked { second: false }, hints: no_hints(), ..c },
                Step::Request,
            )
        },
        (Stage::Asked { second }, Progress::Moved) => (
            Capturing { stage: Stage::Hinting { second }, ..c },
            Step::Dispatch,
        ),
        (Stage::Hinting { second }, Progress::Moved) => if hints_complete(c.hints, c.dmabuf) {
            with_hints(c, second)
        } else {
            (c, Step::Dispatch)
        },
        (Stage::MakingDma, Progress::Made { ok }) => if ok {
            (Capturing { stage: Stage::CopyingDma, dma: c.hints.dma, ..c }, Step::CopyDma)
        } else {
            with_shm(Capturing { dma: None, ..c })
        },
        (Stage::CopyingDma, Progress::Moved) => if c.hints.ready && c.dma is Some {
            (Capturing { stage: Stage::Delivering, ..c }, Step::DeliverDma(c.dma->0))
        } else if c.hints.failed {
            (
                Capturing {
                    stage: Stage::Asked { second: true },
                    hints: no_hints(),
                    dma: None,
                    ..c
                },
                Step::RequestAgain,
            )
        } else {
            (c, Step::Dispatch)
        },
        (Stage::MakingShm, Progress::Made { ok }) => if ok {
            (Capturing { stage: Stage::CopyingShm, shm: c.hints.shm, ..c }, Step::CopyShm)
        } else {
            ended(c, Step::FailFrame)
        },
        (Stage::CopyingShm, Progress::Moved) => if c.hints.failed {
            ended(c, Step::FailFrame)
        } else if c.hints.ready && c.shm is Some {
            (Capturing { stage: Stage::Delivering, ..c }, Step::DeliverShm(c.shm->0))
        } else {
            (c, Step::Dispatch)
        },
        (Stage::Delivering, Progress::Sent) => (
            Capturing { stage: Stage::Idle, ..c },
            Step::Rest,
        ),
        (Stage::Delivering, Progress::ConsumerGone) => ended(c, Step::FailConsumer),
        _ => ended(c, Step::Finish),
    }
}

/// The capture of one output.
pub struct CaptureLoop {
    stage: Stage,
    card: bool,
    dmabuf: bool,
    supported: Vec<(u32, u64)>,
    info: FrameInfo,
    dma: Option<DmaShape>,
    shm: Option<ShmShape>,
    damage: Vec<DamageRegion>,
}

impl View for CaptureLoop {
    type V = Capturing;

    closed spec fn view(&self) -> Capturing {
        Capturing {
            stage: self.stage,
            card: self.card,
            dmabuf: self.dmabuf,
            supported: self.supported@,
            hints: self.info@,
            dma: self.dma,
            shm: self.shm,
            damage: self.damage@,
        }
    }
}

impl CaptureLoop {
    /// A capture between frames, with no buffer made yet.
    pub fn new(card: bool, dmabuf: bool, supported: Vec<(u32, u64)>) -> (c: Self)
        ensures
            c@ == (Capturing {
                stage: Stage::Idle,
                card,
                dmabuf,
                supported: supported@,
                hints: no_hints(),
                dma: None,
                shm: None,
                damage: Seq::empty(),
            }),
    {
        let c = CaptureLoop {
            stage: Stage::Idle,
            card,
            dmabuf,
            supported,
            info: FrameInfo::new(),
            dma: None,
            shm: None,
            damage: Vec::new(),
        };
        assert(c@.damage =~= Seq::<DamageRegion>::empty());
        c
    }

    /// Takes in what the compositor says of the frame.
    pub fn note(&mut self, event: CopyEvent)
        ensures
            final(self)@ == (Capturing { hints: noted(old(self)@.hints, event), ..old(self)@ }),
    {
        self.info.note(event);
    }

    /// The damage of the frame being handed on.
    pub fn take_damage(&mut self) -> (damage: Vec<DamageRegion>)
        ensures
            damage@ == old(self)@.damage,
            final(self)@ == (Capturing { damage: Seq::empty(), ..old(self)@ }),
    {
        let mut damage: Vec<DamageRegion> = Vec::new();
        damage.append(&mut self.damage);
        assert(damage@ =~= old(self).damage@);
        assert(self@.damage =~= Seq::<DamageRegion>::empty());
        damage
    }

    fn end(&mut self, step: Step) -> (s: Step)
        ensures
            (final(self)@, s) == ended(old(self)@, step),
    {
        self.stage = Stage::Over;
        step
    }

    fn go_on_with_shm(&mut self) -> (s: Step)
        ensures
            (final(self)@, s) == with_shm(old(self)@),
    {
        match self.info.shm {
            None => {
                self.stage = Stage::Idle;
                Step::Skip
            },
            Some(shape) => {
                let other: bool = match self.shm {
                    Some(b) => b.width != shape.width || b.height != shape.height,
                    None => true,
                };
                if other {
                    self.stage = Stage::MakingShm;
                    Step::MakeShm(shape)
                } else {
                    self.stage = Stage::CopyingShm;
                    Step::CopyShm
                }
            },
        }
    }

    /// The shape of the graphics-card buffer to try, if one is to be tried.
    fn dma_to_try(&self) -> (shape: Option<DmaShape>)
        ensures
            shape == (if tries_dma(self@) {
                self@.hints.dma
            } else {
                None
            }),
    {
        match self.info.dma {
            Some(shape) => {
                if self.card && self.dmabuf && has_linear(&self.supported, shape.format) {
                    Some(shape)
                } else {
                    None
                }
            },
            None => None,
        }
    }

    fn go_on_with_hints(&mut self, second: bool) -> (s: Step)
        ensures
            (final(self)@, s) == with_hints(old(self)@, second),
    {
        if self.info.failed {
            return self.end(Step::FailFrame);
        }
        self.damage = copy_damage(&self.info.damage);
        if !second {
            if let Some(shape) = self.dma_to_try() {
                let at_hand: bool = match self.dma {
                    Some(b) => b == shape,
                    None => false,
                };
                if at_hand {
                    self.stage = Stage::CopyingDma;
                    return Step::CopyDma;
                }
                self.stage = Stage::MakingDma;
                return Step::MakeDma(shape);
            }
        }
        self.go_on_with_shm()
    }

    /// Takes in how the last step went, and says what to do next.
    pub fn next(&mut self, progress: Progress) -> (s: Step)
        ensures
            (final(self)@, s) == moved_on(old(self)@, progress),
    {
        match (self.stage, progress) {
            (Stage::Idle, Progress::Tick { stop }) => {
                if stop {
                    self.end(Step::Finish)
                } else {
                    self.stage = Stage::Asked { second: false };
                    self.info = FrameInfo::new();
                    Step::Request
                }
            },
            (Stage::Asked { second }, Progress::Moved) => {
                self.stage = Stage::Hinting { second };
                Step::Dispatch
            },
            (Stage::Hinting { second }, Progress::Moved) => {
                if self.info.is_complete(self.dmabuf) {
                    self.go_on_with_hints(second)
                } else {
                    Step::Dispatch
                }
            },
            (Stage::MakingDma, Progress::Made { ok }) => {
                if ok {
                    self.dma = self.info.dma;
                    self.stage = Stage::CopyingDma;
                    Step::CopyDma
                } else {
                    self.dma = None;
                    self.go_on_with_shm()
                }
            },
            (Stage::CopyingDma, Progress::Moved) => {
                if self.info.ready {
                    if let Some(shape) = self.dma {
                        self.stage = Stage::Delivering;
                        return Step::DeliverDma(shape);
                    }
                }
                if self.info.failed {
                    self.stage = Stage::Asked { second: true };
                    self.info = FrameInfo::new();
                    self.dma = None;
                    Step::RequestAgain
                } else {
                    Step::Dispatch
                }
            },
            (Stage::MakingShm, Progress::Made { ok }) => {
                if ok {
                    self.shm = self.info.shm;
                    self.stage = Stage::CopyingShm;
                    Step::CopyShm
                } else {
                    self.end(Step::FailFrame)
                }
            },
            (Stage::CopyingShm, Progress::Moved) => {
                if self.info.failed {
                    return self.end(Step::FailFrame);
                }
                if self.info.ready {
                    if let Some(shape) = self.shm {
                        self.stage = Stage::Delivering;
                        return Step::DeliverShm(shape);
                    }
                }
                Step::Dispatch
            },
            (Stage::Delivering, Progress::Sent) => {
                self.stage = Stage::Idle;
                Step::Rest
            },
            (Stage::Delivering, Progress::ConsumerGone) => self.end(Step::FailConsumer),
            _ => self.end(Step::Finish),
        }
    }
}

fn copy_damage(regions: &Vec<DamageRegion>) -> (copy: Vec<DamageRegion>)
    ensures
        copy@ == regions@,
{
    let mut copy: Vec<DamageRegion> = Vec::new();
    let mut k: usize = 0;
    while k < regions.len()
        invariant
            k <= regions@.len(),
            copy@ == regions@.take(k as int),
        decreases regions@.len() - k,
    {
        copy.push(regions[k]);
        assert(copy@ =~= regions@.take(k + 1));
        k += 1;
    }
    assert(copy@ =~= regions@);
    copy
}

/// How long to sleep after a frame that took `elapsed` of its `duration`.
pub fn rest_of(duration: u64, elapsed: u64) -> (sleep: Option<u64>)
    ensures
        sleep == unused_time(duration, elapsed),
        sleep == (if elapsed < duration {
            Some((duration - elapsed) as u64)
        } else {
            None
        }),
{
    if elapsed < duration {
        Some(duration - elapsed)
    } else {
        None
    }
}

/// Whether the buffers that a stage speaks of are there.
pub open spec fn consistent(c: Capturing) -> bool {
    &&& c.stage is MakingDma ==> c.hints.dma is Some
    &&& c.stage is CopyingDma ==> c.dma is Some
    &&& c.stage is MakingShm ==> c.hints.shm is Some
    &&& c.stage is CopyingShm ==> c.shm is Some
}

/// Whatever happens, a capture never waits for a buffer that is not there.
pub proof fn law_capture_stays_consistent(c: Capturing, p: Progress, event: CopyEvent)
    requires
        consistent(c),
    ensures
        consistent(moved_on(c, p).0),
        consistent((Capturing { hints: noted(c.hints, event), ..c })),
{
}

/// The compositor is only asked to fill buffers of the size and format that it
/// named for this very frame.
pub proof fn law_buffers_are_as_the_compositor_wants(c: Capturing, p: Progress)
    requires
        consistent(c),
    ensures
        moved_on(c, p).1 is CopyDma ==> moved_on(c, p).0.dma is Some && moved_on(c, p).0.dma
            == moved_on(c, p).0.hints.dma,
        moved_on(c, p).1 is CopyShm ==> (moved_on(c, p).0.shm matches Some(b) && (moved_on(
            c,
            p,
        ).0.hints.shm matches Some(wanted) && b.width == wanted.width && b.height
            == wanted.height)),
{
}

/// A frame that the compositor failed to copy is let go and asked for anew, and
/// the second try goes to shared memory whatever is named then.
pub proof fn law_rejected_card_buffer_falls_back(c: Capturing, hints: Hints)
    requires
        c.stage is CopyingDma,
        c.hints.failed,
        !c.hints.ready,
    ensures
        ({
            let (again, step) = moved_on(c, Progress::Moved);
            let (hinting, dispatch) = moved_on(again, Progress::Moved);
            &&& step is RequestAgain
            &&& again.hints == no_hints()
            &&& again.dma is None
            &&& dispatch is Dispatch
            &&& !(moved_on((Capturing { hints, ..hinting }), Progress::Moved).1 is MakeDma)
            &&& !(moved_on((Capturing { hints, ..hinting }), Progress::Moved).1 is CopyDma)
        }),
{
}

/// A capture that is told to stop does so before it asks for another frame, and
/// one that is over stays over.
pub proof fn law_stop_ends_the_capture(c: Capturing, p: Progress)
    ensures
        c.stage is Idle ==> moved_on(c, Progress::Tick { stop: true }).1 is Finish && moved_on(
            c,
            Progress::Tick { stop: true },
        ).0.stage is Over,
        c.stage is Over ==> moved_on(c, p).0.stage is Over,
{
}

/// A frame is handed on with the damage that was named with it, not with that
/// of an earlier frame.
pub proof fn law_damage_belongs_to_the_frame(c: Capturing, second: bool)
    requires
        c.stage == (Stage::Hinting { second }),
        hints_complete(c.hints, c.dmabuf),
        !c.hints.failed,
    ensures
        moved_on(c, Progress::Moved).0.damage == c.hints.damage,
{
}

/// A captured pixel keeps its colours, whatever the order they came in: red first where the
/// format has it first, blue first otherwise. It is opaque unless it came with alpha.
pub proof fn law_captured_pixels_keep_their_colours(data: Seq<u8>, format: u32, pixels: nat, i: int)
    requires
        0 <= i < pixels,
        pixels * 4 <= data.len(),
    ensures
        ({
            let rgba = captured_rgba(data, format, pixels);
            let red_first = format == 0x3432_4241 || format == 0x3432_4258;
            &&& rgba[i * 4] == if red_first {
                data[i * 4]
            } else {
                data[i * 4 + 2]
            }
            &&& rgba[i * 4 + 1] == data[i * 4 + 1]
            &&& rgba[i * 4 + 2] == if red_first {
                data[i * 4 + 2]
            } else {
                data[i * 4]
            }
            &&& rgba[i * 4 + 3] == if format == 0x3432_4241 {
                data[i * 4 + 3]
            } else {
                255
            }
        }),
{
}

/// A pixel from PipeWire is taken as it is where it is RGBA, and else as blue, green, red
/// and a byte that says nothing.
pub proof fn law_portal_pixels_keep_their_colours(data: Seq<u8>, format: u32, pixels: nat, i: int)
    requires
        0 <= i < pixels,
        pixels * 4 <= data.len(),
    ensures
        ({
            let rgba = portal_rgba(data, format, pixels);
            &&& format == 11 ==> rgba == data
            &&& format != 11 ==> {
                &&& rgba[i * 4] == data[i * 4 + 2]
                &&& rgba[i * 4 + 1] == data[i * 4 + 1]
                &&& rgba[i * 4 + 2] == data[i * 4]
                &&& rgba[i * 4 + 3] == 255
            }
        }),
{
}

/// Each event tells one thing of the frame and leaves the rest as it was known. Regions are
/// kept in the order they come.
pub proof fn law_events_tell_one_thing_each(h: Hints, event: CopyEvent)
    ensures
        ({
            let n = noted(h, event);
            &&& n.shm == match event {
                CopyEvent::Buffer { format, width, height, stride } => if format is Some {
                    Some(ShmShape { width, height, stride, format })
                } else {
                    h.shm
                },
                _ => h.shm,
            }
            &&& n.dma == match event {
                CopyEvent::LinuxDmabuf { format, width, height } => Some(
                    DmaShape { width, height, format },
                ),
                _ => h.dma,
            }
            &&& n.damage == match event {
                CopyEvent::Damage(region) => h.damage.push(region),
                _ => h.damage,
            }
            &&& n.ready == (h.ready || event is Ready)
            &&& n.failed == (h.failed || event is Failed)
            &&& n.buffer_done == (h.buffer_done || event is BufferDone)
        }),
{
}

/// A graphics-card buffer is only made where there is a card, the compositor takes such
/// buffers, and it takes them of this format in plain rows; and never at the second try.
pub proof fn law_card_buffers_need_support(c: Capturing, p: Progress)
    ensures
        moved_on(c, p).1 matches Step::MakeDma(shape) ==> {
            &&& c.card
            &&& c.dmabuf
            &&& c.hints.dma == Some(shape)
            &&& c.supported.contains((shape.format, 0u64))
            &&& c.stage == (Stage::Hinting { second: false })
        },
        c.stage == (Stage::Hinting { second: false }) && c.hints.buffer_done && !c.hints.failed
            && c.card && c.dmabuf && (c.hints.dma matches Some(shape) && c.supported.contains(
            (shape.format, 0u64),
        )) ==> moved_on(c, Progress::Moved).1 is MakeDma || moved_on(c, Progress::Moved).1
            is CopyDma,
{
}

/// A buffer at hand is used again while the size stays the same, and made anew otherwise.
pub proof fn law_shared_memory_is_used_again(c: Capturing)
    requires
        c.stage == (Stage::Hinting { second: true }),
        c.hints.buffer_done,
        !c.hints.failed,
    ensures
        c.hints.shm is None ==> moved_on(c, Progress::Moved).1 is Skip,
        c.hints.shm matches Some(wanted) ==> {
            let at_hand = c.shm is Some && c.shm->0.width == wanted.width && c.shm->0.height
                == wanted.height;
            &&& at_hand ==> moved_on(c, Progress::Moved).1 is CopyShm
            &&& !at_hand ==> moved_on(c, Progress::Moved).1 == Step::MakeShm(wanted)
        },
{
}

/// A frame goes from the request to its hand-over: asked for with nothing known of it, told
/// of until enough is known, copied until it is ready, handed on from the buffer it was
/// copied to, and rested after.
pub proof fn law_capture_goes_round(c: Capturing)
    ensures
        c.stage is Idle ==> {
            let (next, step) = moved_on(c, Progress::Tick { stop: false });
            step is Request && next.hints == no_hints() && next.stage == (Stage::Asked {
                second: false,
            })
        },
        c.stage is Hinting && !c.hints.failed && !c.hints.buffer_done && (c.hints.shm is None
            || c.dmabuf) ==> moved_on(c, Progress::Moved) == (c, Step::Dispatch),
        c.stage is Hinting && (c.hints.failed || c.hints.buffer_done || (c.hints.shm is Some
            && !c.dmabuf)) ==> !(moved_on(c, Progress::Moved).1 is Dispatch),
        c.stage is Hinting && c.hints.failed ==> moved_on(c, Progress::Moved).1 is FailFrame,
        c.stage is CopyingShm && !c.hints.ready && !c.hints.failed ==> moved_on(c, Progress::Moved)
            == (c, Step::Dispatch),
        c.stage is CopyingDma && !c.hints.ready && !c.hints.failed ==> moved_on(c, Progress::Moved)
            == (c, Step::Dispatch),
        c.stage is CopyingShm && c.hints.failed ==> moved_on(c, Progress::Moved).1 is FailFrame,
        c.stage is CopyingShm && c.hints.ready && !c.hints.failed ==> (c.shm matches Some(b)
            ==> moved_on(c, Progress::Moved).1 == Step::DeliverShm(b)),
        c.stage is CopyingDma && c.hints.ready ==> (c.dma matches Some(b) ==> moved_on(
            c,
            Progress::Moved,
        ).1 == Step::DeliverDma(b)),
        c.stage is Delivering ==> {
            let (next, step) = moved_on(c, Progress::Sent);
            step is Rest && next.stage is Idle && next.shm == c.shm && next.dma == c.dma
        },
        c.stage is Delivering ==> moved_on(c, Progress::ConsumerGone).1 is FailConsumer,
{
}

/// Two halves of sixty-four bits, the high one first.
pub open spec fn put_together(high: u32, low: u32) -> int {
    high * 0x1_0000_0000 + low
}

/// The halves are found again in the whole: the low one is its rest by two to the
/// thirty-second, the high one the quotient.
pub proof fn law_halves_are_found_again(high: u32, low: u32)
    ensures
        put_together(high, low) / 4_294_967_296 == high,
        put_together(high, low) % 4_294_967_296 == low,
        put_together(high, low) <= u64::MAX,
        put_together(0, 0) == 0,
{
}

/// What is left of a frame's time.
pub open spec fn unused_time(duration: u64, elapsed: u64) -> Option<u64> {
    if elapsed < duration {
        Some((duration - elapsed) as u64)
    } else {
        None
    }
}

/// A frame and the sleep after it take the frame's time together; one that took that long
/// or longer is not slept after.
pub proof fn law_frames_keep_their_pace(duration: u64, elapsed: u64)
    ensures
        unused_time(duration, elapsed) matches Some(sleep) ==> sleep > 0 && elapsed + sleep
            == duration,
        unused_time(duration, elapsed) is None <==> elapsed >= duration,
{
}

} // verus!
