//! Streaming over the WebSocket itself, for clients without peer connections:
//! every frame is sent as it is, with no acknowledgements.

use crate::config::Config;
use crate::diff::{detected, fresh_state, reported, DebugReport, DetectorState, DiffDetector};
use crate::encoder::TileMerger;
use crate::frame::Frame;
use crate::pipeline::{
    announced, by_score, cut_out, detect_and_merge, lemma_pixels_inside, lemma_placed, merged_from, placed,
    rank, EncodingTask,
};
use crate::profiler::pixels_of;
use crate::server::{lossy_text, request_text};
use crate::text::{contains_text, decimal, decimal_text, holds_part, join};
use crate::tile::{grid_over, Grid, Tile};
use crate::tile_hash::SimdLevel;
use vstd::prelude::*;
use vstd::utf8::encode_utf8;

verus! {

/// Whether a request holds the upgrade header as browsers write it.
pub open spec fn asks_plainly(request: Seq<char>) -> bool {
    holds_part(request, "Upgrade: websocket"@) || holds_part(request, "Upgrade: WebSocket"@)
}

/// Whether a request's head asks for a WebSocket; everything else gets the
/// page.
pub fn is_plain_upgrade(request: &str) -> (b: bool)
    ensures
        b == asks_plainly(request@),
{
    contains_text(request, "Upgrade: websocket") || contains_text(request, "Upgrade: WebSocket")
}

/// Whether the first bytes of a connection ask for a WebSocket.
pub fn wants_websocket(head: &[u8]) -> (b: bool)
    ensures
        b == asks_plainly(lossy_text(head@)),
{
    let text: String = request_text(head);
    is_plain_upgrade(text.as_str())
}

/// How long a page may be kept by the browser.
#[derive(Clone, Copy, Debug, PartialEq, Eq, Structural)]
pub enum Caching {
    /// It has to ask again each time.
    AskAgain,
    /// It is not to be kept at all.
    Never,
}

/// The header lines about caching.
pub open spec fn caching_lines(c: Caching) -> Seq<char> {
    match c {
        Caching::AskAgain => "Cache-Control: no-cache\r\n"@,
        Caching::Never =>
            "Cache-Control: no-cache, no-store, must-revalidate\r\nPragma: no-cache\r\nExpires: 0\r\n"@,
    }
}

/// The response that carries a page of `len` bytes.
pub open spec fn page_text(html: Seq<char>, len: nat, c: Caching) -> Seq<char> {
    "HTTP/1.1 200 OK\r\nContent-Type: text/html; charset=utf-8\r\nContent-Length: "@ + decimal(len)
        + "\r\n"@ + caching_lines(c) + "\r\n"@ + html
}

/// The whole response that carries a page.
pub fn page_response(html: &str, c: Caching) -> (response: String)
    ensures
        response@ == page_text(html@, encode_utf8(html@).len(), c),
{
    let bytes: &[u8] = html.as_bytes();
    let n: String = decimal_text(bytes.len() as u64);
    let caching: &str = match c {
        Caching::AskAgain => "Cache-Control: no-cache\r\n",
        Caching::Never =>
            "Cache-Control: no-cache, no-store, must-revalidate\r\nPragma: no-cache\r\nExpires: 0\r\n",
    };
    let s: String = join(
        "HTTP/1.1 200 OK\r\nContent-Type: text/html; charset=utf-8\r\nContent-Length: ",
        n.as_str(),
    );
    let s: String = join(s.as_str(), "\r\n");
    let s: String = join(s.as_str(), caching);
    let s: String = join(s.as_str(), "\r\n");
    join(s.as_str(), html)
}

/// How long to wait for a frame that is due by `deadline`: not at all once it
/// has passed.
pub fn wait_for_frame(now: u64, deadline: u64) -> (wait: Option<u64>)
    ensures
        wait == left_until(now, deadline),
        wait == (if now >= deadline {
            None
        } else {
            Some((deadline - now) as u64)
        }),
{
    if now >= deadline {
        None
    } else {
        Some(deadline - now)
    }
}

/// What a plain stream remembers, as a value.
#[verifier::ext_equal]
pub struct PlainState {
    pub detector: DetectorState,
    /// The size of the last frame.
    pub screen: Option<(u32, u32)>,
}

impl PlainState {
    /// The detector knows the cells of the current frame size, or none yet.
    pub open spec fn consistent(self, config: Config) -> bool {
        &&& self.detector.consistent()
        &&& match self.screen {
            Some((w, h)) => self.detector.hashes.len() == 0 || self.detector.hashes.len()
                == grid_over(config.tiles_x as int, w as int, h as int).cells(),
            None => self.detector.hashes.len() == 0,
        }
    }
}

/// A plain stream's state when a frame of this size arrives: a new size starts
/// over.
pub open spec fn plain_start(state: PlainState, width: u32, height: u32) -> PlainState {
    if state.screen != Some((width, height)) {
        PlainState { detector: fresh_state(), screen: Some((width, height)) }
    } else {
        state
    }
}

/// What is to be sent of one frame.
pub struct PlainFrame {
    /// The frame's size, where it is new.
    pub header: Option<(u32, u32)>,
    /// The merged tiles, highest priority first.
    pub tiles: Vec<Tile>,
    /// One task for each tile, in the same order.
    pub tasks: Vec<EncodingTask>,
}

/// Whether there is one task for each of the first `n` tiles, with its pixels.
pub open spec fn one_task_each(
    tasks: Seq<EncodingTask>,
    tiles: Seq<Tile>,
    rgba: Seq<u8>,
    width: int,
    n: int,
) -> bool {
    &&& tasks.len() == n
    &&& forall|k: int|
        0 <= k < n ==> {
            &&& (#[trigger] tasks[k]).tile == tiles[k]
            &&& tasks[k].tile_idx == k
            &&& tasks[k].tile_data@ == pixels_of(rgba, tiles[k], width)
        }
}

/// A stream over the WebSocket: nothing is kept of what was encoded, and
/// nothing is sent twice.
pub struct PlainStream {
    diff_detector: DiffDetector,
    tile_merger: TileMerger,
    screen_size: Option<(u32, u32)>,
}

impl View for PlainStream {
    type V = PlainState;

    closed spec fn view(&self) -> PlainState {
        PlainState { detector: self.diff_detector@, screen: self.screen_size }
    }
}

impl PlainStream {
    pub closed spec fn settings(&self) -> Config {
        self.diff_detector.settings()
    }

    pub closed spec fn hash_level(&self) -> SimdLevel {
        self.diff_detector.hash_level()
    }

    pub closed spec fn gap(&self) -> int {
        self.tile_merger.gap()
    }

    /// Whether two streams are set up alike.
    pub open spec fn same_setup(&self, other: &PlainStream) -> bool {
        &&& self.settings() == other.settings()
        &&& self.hash_level() == other.hash_level()
        &&& self.gap() == other.gap()
    }

    /// The grid that frames of this size are cut into.
    pub open spec fn grid_for(&self, frame: Frame) -> Grid {
        grid_over(self.settings().tiles_x as int, frame.width as int, frame.height as int)
    }

    /// A stream that has seen nothing, hashing at `level`.
    pub fn new(config: Config, level: SimdLevel) -> (s: Self)
        ensures
            s@ == (PlainState { detector: fresh_state(), screen: None }),
            s@.consistent(config),
            s.settings() == config,
            s.hash_level() == level,
            s.gap() == config.merge_gap,
    {
        let tile_merger: TileMerger = TileMerger::new(config.merge_gap);
        PlainStream {
            diff_detector: DiffDetector::with_level(config, level),
            tile_merger,
            screen_size: None,
        }
    }

    /// The statistics to report after the last frame, as
    /// [`DiffDetector::debug_report`] gives them.
    pub fn debug_report(&self) -> (report: Option<DebugReport>)
        ensures
            reported(self.settings(), self@.detector, report),
    {
        self.diff_detector.debug_report()
    }

    /// Starts over where a frame has a new size, and returns that size.
    fn begin(&mut self, width: u32, height: u32) -> (header: Option<(u32, u32)>)
        ensures
            final(self).same_setup(old(self)),
            final(self)@ == plain_start(old(self)@, width, height),
            header == (if old(self)@.screen != Some((width, height)) {
                Some((width, height))
            } else {
                None
            }),
    {
        if let Some((w, h)) = self.screen_size {
            if w == width && h == height {
                return None;
            }
        }
        self.diff_detector.reset();
        self.screen_size = Some((width, height));
        Some((width, height))
    }

    /// Looks at a frame, and lists what is to be encoded and sent of it.
    pub fn process(&mut self, frame: &Frame) -> (out: PlainFrame)
        requires
            old(self)@.consistent(old(self).settings()),
            old(self)@.detector.frames < u64::MAX,
            frame.streamable(),
        ensures
            final(self).same_setup(old(self)),
            final(self)@.consistent(old(self).settings()),
            old(self).gap() >= 0,
            out.header == announced(old(self)@.screen, frame.width, frame.height),
            out.header == (if old(self)@.screen != Some((frame.width, frame.height)) {
                Some((frame.width, frame.height))
            } else {
                None
            }),
            ({
                let start = plain_start(old(self)@, frame.width, frame.height);
                let grid = old(self).grid_for(*frame);
                &&& final(self)@ == (PlainState {
                    detector: detected(
                        old(self).settings(),
                        old(self).hash_level(),
                        start.detector,
                        grid,
                        *frame,
                    ),
                    screen: Some((frame.width, frame.height)),
                })
                &&& merged_from(
                    old(self).settings(),
                    old(self).hash_level(),
                    old(self).gap(),
                    start.detector,
                    grid,
                    *frame,
                    out.tiles@,
                )
                &&& by_score(old(self).settings(), final(self)@.detector, grid, out.tiles@)
                &&& one_task_each(
                    out.tasks@,
                    out.tiles@,
                    frame.rgba@,
                    frame.width as int,
                    out.tiles@.len() as int,
                )
            }),
    {
        proof {
            self.tile_merger.lemma_gap();
        }
        let header: Option<(u32, u32)> = self.begin(frame.width, frame.height);
        let grid: Grid = Grid::new(self.diff_detector.config().tiles_x, frame.width, frame.height);
        let (_changed, merged): (usize, Vec<Tile>) = detect_and_merge(
            &mut self.diff_detector,
            &self.tile_merger,
            &grid,
            frame,
        );
        let tiles: Vec<Tile> = rank(&self.diff_detector, &merged, &grid);
        proof {
            assert forall|k: int| 0 <= k < tiles@.len() implies placed(#[trigger] tiles@[k], grid) by {
                assert(tiles@.contains(tiles@[k]));
                assert(merged@.contains(tiles@[k]));
                let j = choose|j: int| 0 <= j < merged@.len() && merged@[j] == tiles@[k];
                assert(placed(merged@[j], grid));
            }
        }
        let tasks: Vec<EncodingTask> = all_tasks(frame, &tiles, &grid);
        PlainFrame { header, tiles, tasks }
    }
}

/// One task for each tile.
fn all_tasks(frame: &Frame, tiles: &Vec<Tile>, grid: &Grid) -> (tasks: Vec<EncodingTask>)
    requires
        frame.streamable(),
        grid.well_formed(),
        grid.cells() <= u32::MAX,
        grid.frame_width == frame.width,
        grid.frame_height == frame.height,
        forall|k: int| 0 <= k < tiles@.len() ==> placed(#[trigger] tiles@[k], *grid),
    ensures
        one_task_each(
            tasks@,
            tiles@,
            frame.rgba@,
            frame.width as int,
            tiles@.len() as int,
        ),
{
    let mut tasks: Vec<EncodingTask> = Vec::new();
    let mut k: usize = 0;
    while k < tiles.len()
        invariant
            k <= tiles@.len(),
            frame.streamable(),
            grid.well_formed(),
            grid.cells() <= u32::MAX,
            grid.frame_width == frame.width,
            grid.frame_height == frame.height,
            forall|j: int| 0 <= j < tiles@.len() ==> placed(#[trigger] tiles@[j], *grid),
            one_task_each(tasks@, tiles@, frame.rgba@, frame.width as int, k as int),
        decreases tiles@.len() - k,
    {
        let tile: Tile = tiles[k];
        proof {
            assert(placed(tiles@[k as int], *grid));
            lemma_placed(tile, *grid);
            lemma_pixels_inside(*frame, tile);
        }
        let buffer: Vec<u8> = Vec::new();
        let tile_data: Vec<u8> = cut_out(frame, &tile, buffer);
        tasks.push(EncodingTask { tile, tile_data, tile_idx: k });
        k += 1;
    }
    tasks
}

/// A request asks for a WebSocket with the upgrade header anywhere in it, in either of the
/// two ways browsers write it.
pub proof fn law_upgrade_header_may_stand_anywhere(front: Seq<char>, back: Seq<char>)
    ensures
        asks_plainly(front + "Upgrade: websocket"@ + back),
        asks_plainly(front + "Upgrade: WebSocket"@ + back),
        asks_plainly(front) ==> asks_plainly(front + back) && asks_plainly(back + front),
{
    lemma_part_stands(front, "Upgrade: websocket"@, back);
    lemma_part_stands(front, "Upgrade: WebSocket"@, back);
    if holds_part(front, "Upgrade: websocket"@) {
        lemma_part_stays(front, "Upgrade: websocket"@, back);
    }
    if holds_part(front, "Upgrade: WebSocket"@) {
        lemma_part_stays(front, "Upgrade: WebSocket"@, back);
    }
}

proof fn lemma_part_stands(front: Seq<char>, part: Seq<char>, back: Seq<char>)
    ensures
        holds_part(front + part + back, part),
{
    let n = front.len() as int;
    assert((front + part + back).subrange(n, n + part.len()) =~= part);
    assert(crate::text::stands_at(front + part + back, part, n));
}

proof fn lemma_part_stays(text: Seq<char>, part: Seq<char>, more: Seq<char>)
    requires
        holds_part(text, part),
    ensures
        holds_part(text + more, part),
        holds_part(more + text, part),
{
    let i = choose|i: int| crate::text::stands_at(text, part, i);
    assert(text.subrange(i, i + part.len()) == part);
    assert((text + more).subrange(i, i + part.len()) =~= text.subrange(i, i + part.len()));
    assert(crate::text::stands_at(text + more, part, i));
    let n = more.len() as int;
    assert((more + text).subrange(n + i, n + i + part.len()) =~= text.subrange(i, i + part.len()));
    assert(crate::text::stands_at(more + text, part, n + i));
}

/// A frame of a new size finds nothing remembered; one of the same size finds everything.
pub proof fn law_plain_stream_starts_over_with_a_size(state: PlainState, width: u32, height: u32)
    ensures
        state.screen == Some((width, height)) ==> plain_start(state, width, height) == state,
        state.screen != Some((width, height)) ==> plain_start(
            state,
            width,
            height,
        ).detector.hashes.len() == 0 && plain_start(state, width, height).detector.frames == 0,
        plain_start(state, width, height).screen == Some((width, height)),
{
}

/// Every tile is encoded from its own pixels of the frame, and is known by its place among
/// the tiles.
pub proof fn law_plain_tasks_hold_the_pixels(
    tasks: Seq<EncodingTask>,
    tiles: Seq<Tile>,
    frame: Frame,
    k: int,
    col: int,
    row: int,
    channel: int,
)
    requires
        one_task_each(tasks, tiles, frame.rgba@, frame.width as int, tiles.len() as int),
        frame.complete(),
        0 <= k < tiles.len(),
        tiles[k].x + tiles[k].width <= frame.width,
        tiles[k].y + tiles[k].height <= frame.height,
        0 <= col < tiles[k].width,
        0 <= row < tiles[k].height,
        0 <= channel < 4,
    ensures
        tasks.len() == tiles.len(),
        tasks[k].tile == tiles[k],
        tasks[k].tile_idx == k,
        tasks[k].tile_data@.len() == tiles[k].width * tiles[k].height * 4,
        tasks[k].tile_data@[(row * tiles[k].width + col) * 4 + channel] == frame.rgba@[((tiles[k].y
            + row) * frame.width + tiles[k].x + col) * 4 + channel],
{
    let t = tiles[k];
    let stride = frame.width as int;
    assert((t.y + t.height - 1) * stride + stride <= frame.height * stride) by (nonlinear_arith)
        requires
            t.y + t.height <= frame.height,
            stride >= 1,
    ;
    assert(frame.height * stride == frame.width * frame.height) by (nonlinear_arith)
        requires
            stride == frame.width,
    ;
    assert(tasks[k].tile == tiles[k]);
    crate::tile_hash::law_tile_pixels_are_the_tile(
        frame.rgba@,
        t.x as int,
        t.y as int,
        t.width as int,
        t.height as int,
        stride,
        col,
        row,
        channel,
    );
}

proof fn lemma_caching_lines(c: Caching)
    ensures
        ({
            let lines = caching_lines(c);
            lines.len() >= 2 && lines[lines.len() - 2] == '\r' && lines[lines.len() - 1] == '\n'
        }),
{
    match c {
        Caching::AskAgain => {
            reveal_strlit("Cache-Control: no-cache\r\n");
        },
        Caching::Never => {
            reveal_strlit(
                "Cache-Control: no-cache, no-store, must-revalidate\r\nPragma: no-cache\r\nExpires: 0\r\n",
            );
        },
    }
}

proof fn lemma_ends_empty(front: Seq<char>, lines: Seq<char>)
    requires
        lines.len() >= 2,
        lines[lines.len() - 2] == '\r',
        lines[lines.len() - 1] == '\n',
    ensures
        "\r\n\r\n"@.is_suffix_of(front + lines + "\r\n"@),
{
    reveal_strlit("\r\n");
    reveal_strlit("\r\n\r\n");
    let head = front + lines + "\r\n"@;
    assert("\r\n\r\n"@ =~= head.subrange(head.len() - 4, head.len() as int));
}

/// The response is a head that ends with an empty line, and then the page itself; the head
/// tells how long the page is and how long it may be kept.
pub proof fn law_page_follows_its_head(html: Seq<char>, len: nat, c: Caching)
    ensures
        ({
            let text = page_text(html, len, c);
            let head = text.take(text.len() - html.len());
            &&& text == head + html
            &&& "\r\n\r\n"@.is_suffix_of(head)
            &&& holds_part(head, caching_lines(c))
            &&& holds_part(head, decimal(len) + "\r\n"@)
        }),
{
    let front = "HTTP/1.1 200 OK\r\nContent-Type: text/html; charset=utf-8\r\nContent-Length: "@;
    let lines = caching_lines(c);
    let end = "\r\n"@;
    let start = front + decimal(len) + end;
    let head = start + lines + end;
    lemma_head_and_page(head, html);
    lemma_caching_lines(c);
    lemma_ends_empty(start, lines);
    lemma_part_stands(start, lines, end);
    lemma_part_stands(front, decimal(len) + end, lines + end);
    lemma_regrouped(front, decimal(len), end, lines, end);
}

proof fn lemma_head_and_page(head: Seq<char>, html: Seq<char>)
    ensures
        (head + html).take((head + html).len() - html.len()) == head,
{
    assert((head + html).take((head + html).len() - html.len()) =~= head);
}

proof fn lemma_regrouped(a: Seq<char>, b: Seq<char>, c: Seq<char>, d: Seq<char>, e: Seq<char>)
    ensures
        a + (b + c) + (d + e) == a + b + c + d + e,
{
    assert(a + (b + c) + (d + e) =~= a + b + c + d + e);
}

/// The time from one moment to another, if there is any.
pub open spec fn left_until(now: u64, deadline: u64) -> Option<u64> {
    if now < deadline {
        Some((deadline - now) as u64)
    } else {
        None
    }
}

/// A wait ends at the deadline, and there is none once that has come.
pub proof fn law_waits_end_at_the_deadline(now: u64, deadline: u64)
    ensures
        left_until(now, deadline) matches Some(wait) ==> wait > 0 && now + wait == deadline,
        left_until(now, deadline) is None <==> deadline <= now,
{
}

} // verus!
