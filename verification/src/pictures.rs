//! Pictures made up for benchmarks and tests of the detector, the encoder and
//! the hash functions.

use vstd::arithmetic::div_mod::{lemma_fundamental_div_mod_converse, lemma_mod_bound};
use vstd::prelude::*;

verus! {

/// What happens on a made-up screen.
#[derive(Clone, Copy, Debug, PartialEq, Eq, Structural)]
pub enum Scenario {
    /// A clock changes.
    Static,
    /// Text is typed, and a clock changes.
    Moderate,
    /// A page is scrolled.
    Active,
    /// A video plays in the middle.
    Video,
}

/// Whether a position lies in a rectangle.
pub open spec fn within(x: int, y: int, left: int, top: int, width: int, height: int) -> bool {
    left <= x < left + width && top <= y < top + height
}

/// Whether a pixel of a `width` by `height` screen changes.
pub open spec fn changes_at(s: Scenario, width: int, height: int, x: int, y: int) -> bool {
    match s {
        Scenario::Static => within(x, y, 1700, 50, 200, 30),
        Scenario::Moderate => within(x, y, 200, 300, 400, 60) || within(x, y, 200, 450, 300, 40)
            || within(x, y, 1700, 50, 200, 30),
        Scenario::Active => within(x, y, 300, 100, 1300, 800),
        Scenario::Video => within(x, y, (width - 640) / 2, (height - 480) / 2, 640, 480),
    }
}

/// One byte of a pixel that changes, in frame `n`: red, green, blue, alpha.
pub open spec fn changing_byte(s: Scenario, n: int, x: int, y: int, c: int) -> u8 {
    let scroll = (n * 5) % 800;
    let v = if c == 3 {
        255
    } else {
        match s {
            Scenario::Static => if c == 0 {
                n * 17
            } else if c == 1 {
                200
            } else {
                n * 23
            },
            Scenario::Moderate => if c == 0 {
                x + y + n
            } else if c == 1 {
                60
            } else {
                x * y + n * 3
            },
            Scenario::Active => if c == 0 {
                x + y + scroll
            } else if c == 1 {
                x * 2 + scroll
            } else {
                100
            },
            Scenario::Video => if c == 0 {
                x + y + n * 7
            } else if c == 1 {
                x * 2 + n * 11
            } else {
                y * 2 + n * 13
            },
        }
    };
    (v % 256) as u8
}

/// One byte of a made-up frame.
pub open spec fn scenario_byte(
    s: Scenario,
    width: int,
    height: int,
    n: int,
    x: int,
    y: int,
    c: int,
) -> u8 {
    if changes_at(s, width, height, x, y) {
        changing_byte(s, n, x, y, c)
    } else {
        100
    }
}

/// A made-up frame: grey, but for what changes.
pub open spec fn scenario_picture(s: Scenario, width: int, height: int, n: int) -> Seq<u8> {
    Seq::new(
        (width * height * 4) as nat,
        |j: int| scenario_byte(s, width, height, n, (j / 4) % width, (j / 4) / width, j % 4),
    )
}

/// Whether everything that changes lies on the screen. What is typed may go
/// beyond it.
pub open spec fn screen_holds(s: Scenario, width: int, height: int) -> bool {
    match s {
        Scenario::Static => width >= 1900 && height >= 80,
        Scenario::Moderate => true,
        Scenario::Active => width >= 1600 && height >= 900,
        Scenario::Video => width >= 640 && height >= 480,
    }
}

fn in_rect(x: u64, y: u64, left: u64, top: u64, width: u64, height: u64) -> (b: bool)
    requires
        left <= u32::MAX,
        top <= u32::MAX,
        width <= u32::MAX,
        height <= u32::MAX,
    ensures
        b == within(x as int, y as int, left as int, top as int, width as int, height as int),
{
    left <= x && x < left + width && top <= y && y < top + height
}

fn changes_here(s: Scenario, width: u64, height: u64, x: u64, y: u64) -> (b: bool)
    requires
        width <= u32::MAX,
        height <= u32::MAX,
        screen_holds(s, width as int, height as int),
    ensures
        b == changes_at(s, width as int, height as int, x as int, y as int),
{
    match s {
        Scenario::Static => in_rect(x, y, 1700, 50, 200, 30),
        Scenario::Moderate => in_rect(x, y, 200, 300, 400, 60) || in_rect(x, y, 200, 450, 300, 40)
            || in_rect(x, y, 1700, 50, 200, 30),
        Scenario::Active => in_rect(x, y, 300, 100, 1300, 800),
        Scenario::Video => in_rect(x, y, (width - 640) / 2, (height - 480) / 2, 640, 480),
    }
}

/// The low byte of a number.
fn byte_of(v: u64) -> (b: u8)
    ensures
        b == (v as int % 256) as u8,
{
    (v % 256) as u8
}

/// Red, green and blue of a pixel that changes.
fn changing_pixel(s: Scenario, n: u64, x: u64, y: u64) -> (p: (u8, u8, u8))
    requires
        n <= u32::MAX,
        x <= u32::MAX,
        y <= u32::MAX,
    ensures
        p.0 == changing_byte(s, n as int, x as int, y as int, 0),
        p.1 == changing_byte(s, n as int, x as int, y as int, 1),
        p.2 == changing_byte(s, n as int, x as int, y as int, 2),
{
    assert(0 <= x * y <= 0xffff_ffff * 0xffff_ffff) by (nonlinear_arith)
        requires
            0 <= x <= 0xffff_ffff,
            0 <= y <= 0xffff_ffff,
    ;
    let scroll: u64 = (n * 5) % 800;
    match s {
        Scenario::Static => (byte_of(n * 17), 200, byte_of(n * 23)),
        Scenario::Moderate => (
            byte_of(x + y + n),
            60,
            ((x as u128 * y as u128 + n as u128 * 3) % 256) as u8,
        ),
        Scenario::Active => (byte_of(x + y + scroll), byte_of(x * 2 + scroll), 100),
        Scenario::Video => (byte_of(x + y + n * 7), byte_of(x * 2 + n * 11), byte_of(y * 2 + n * 13)),
    }
}

proof fn lemma_pixel_place(x: int, y: int, width: int, c: int)
    requires
        0 <= x < width,
        0 <= y,
        0 <= c < 4,
    ensures
        ({
            let j = (y * width + x) * 4 + c;
            &&& j / 4 == y * width + x
            &&& j % 4 == c
            &&& (j / 4) % width == x
            &&& (j / 4) / width == y
        }),
{
    lemma_fundamental_div_mod_converse((y * width + x) * 4 + c, 4, y * width + x, c);
    lemma_fundamental_div_mod_converse(y * width + x, width, y, x);
}

/// Makes frame `n` of a scenario up.
pub fn generate_scenario_frame(width: u32, height: u32, n: u32, s: Scenario) -> (rgba: Vec<u8>)
    requires
        width * height * 4 <= usize::MAX,
        screen_holds(s, width as int, height as int),
    ensures
        rgba@ == scenario_picture(s, width as int, height as int, n as int),
{
    let ghost picture = scenario_picture(s, width as int, height as int, n as int);
    let mut rgba: Vec<u8> = Vec::new();
    let mut y: u32 = 0;
    while y < height
        invariant
            y <= height,
            width * height * 4 <= usize::MAX,
            screen_holds(s, width as int, height as int),
            picture == scenario_picture(s, width as int, height as int, n as int),
            rgba@.len() == y * width * 4,
            forall|j: int| 0 <= j < rgba@.len() ==> #[trigger] rgba@[j] == picture[j],
        decreases height - y,
    {
        let mut x: u32 = 0;
        while x < width
            invariant
                x <= width,
                y < height,
                width * height * 4 <= usize::MAX,
                screen_holds(s, width as int, height as int),
                picture == scenario_picture(s, width as int, height as int, n as int),
                rgba@.len() == (y * width + x) * 4,
                forall|j: int| 0 <= j < rgba@.len() ==> #[trigger] rgba@[j] == picture[j],
            decreases width - x,
        {
            let ghost base = (y * width + x) * 4;
            proof {
                assert(y * width + x < width * height) by (nonlinear_arith)
                    requires
                        0 <= x < width,
                        0 <= y < height,
                ;
                lemma_pixel_place(x as int, y as int, width as int, 0);
                lemma_pixel_place(x as int, y as int, width as int, 1);
                lemma_pixel_place(x as int, y as int, width as int, 2);
                lemma_pixel_place(x as int, y as int, width as int, 3);
            }
            let (r, g, b, a): (u8, u8, u8, u8) = if changes_here(
                s,
                width as u64,
                height as u64,
                x as u64,
                y as u64,
            ) {
                let (r, g, b) = changing_pixel(s, n as u64, x as u64, y as u64);
                (r, g, b, 255)
            } else {
                (100, 100, 100, 100)
            };
            rgba.push(r);
            rgba.push(g);
            rgba.push(b);
            rgba.push(a);
            proof {
                assert(rgba@[base] == picture[base]);
                assert(rgba@[base + 1] == picture[base + 1]);
                assert(rgba@[base + 2] == picture[base + 2]);
                assert(rgba@[base + 3] == picture[base + 3]);
                assert((y * width + x + 1) * 4 == base + 4) by (nonlinear_arith)
                    requires
                        base == (y * width + x) * 4,
                ;
            }
            x += 1;
        }
        assert((y + 1) * width * 4 == (y * width + width) * 4) by (nonlinear_arith);
        y += 1;
    }
    assert(height * width * 4 == width * height * 4) by (nonlinear_arith);
    assert(rgba@ =~= picture);
    rgba
}

/// Where change `i` of frame `n` goes.
pub open spec fn change_place(len: int, n: int, i: int) -> int {
    (i * 4 + n * 7) % len
}

/// Bytes after the first `count` changes of frame `n`. A change that does not
/// fit at the end is left out.
pub open spec fn after_changes(bytes: Seq<u8>, n: int, count: nat) -> Seq<u8>
    decreases count,
{
    if count == 0 {
        bytes
    } else {
        let i = count - 1;
        let before = after_changes(bytes, n, i as nat);
        let at = change_place(bytes.len() as int, n, i);
        if at + 3 < bytes.len() {
            before.update(at, ((n + i) % 256) as u8).update(
                at + 1,
                ((n * 2 + i) % 256) as u8,
            ).update(at + 2, ((n * 3 + i) % 256) as u8).update(at + 3, 255)
        } else {
            before
        }
    }
}

/// A grey frame with `count` changed pixels.
pub open spec fn test_picture(width: int, height: int, n: int, count: nat) -> Seq<u8> {
    after_changes(Seq::new((width * height * 4) as nat, |j: int| 100u8), n, count)
}

proof fn lemma_changes_keep_len(bytes: Seq<u8>, n: int, count: nat)
    requires
        bytes.len() > 0,
    ensures
        after_changes(bytes, n, count).len() == bytes.len(),
    decreases count,
{
    if count > 0 {
        lemma_changes_keep_len(bytes, n, (count - 1) as nat);
        lemma_mod_bound((count - 1) * 4 + n * 7, bytes.len() as int);
    }
}

/// Bytes that are all the same.
fn filled(len: usize, v: u8) -> (bytes: Vec<u8>)
    ensures
        bytes@ == Seq::new(len as nat, |j: int| v),
{
    let mut bytes: Vec<u8> = Vec::new();
    let mut k: usize = 0;
    while k < len
        invariant
            k <= len,
            bytes@.len() == k,
            forall|j: int| 0 <= j < k ==> #[trigger] bytes@[j] == v,
        decreases len - k,
    {
        bytes.push(v);
        k += 1;
    }
    assert(bytes@ =~= Seq::new(len as nat, |j: int| v));
    bytes
}

/// Makes frame `n` up, with `count` changed pixels.
pub fn generate_test_frame(width: u32, height: u32, n: u32, count: usize) -> (rgba: Vec<u8>)
    requires
        0 < width * height * 4 <= usize::MAX,
        count <= u32::MAX,
    ensures
        rgba@ == test_picture(width as int, height as int, n as int, count as nat),
{
    assert(width * height <= usize::MAX && width * height * 4 <= usize::MAX);
    let len: usize = width as usize * height as usize * 4;
    let mut rgba: Vec<u8> = filled(len, 100);
    let ghost grey = rgba@;
    assert(grey =~= Seq::new((width * height * 4) as nat, |j: int| 100u8));
    let mut i: usize = 0;
    while i < count
        invariant
            i <= count <= u32::MAX,
            len > 0,
            grey.len() == len,
            rgba@ == after_changes(grey, n as int, i as nat),
        decreases count - i,
    {
        proof {
            lemma_changes_keep_len(grey, n as int, i as nat);
        }
        let at: u64 = (i as u64 * 4 + n as u64 * 7) % (len as u64);
        let k: usize = at as usize;
        if len >= 4 && k < len - 3 {
            let (a, b): (u64, u64) = (n as u64, i as u64);
            rgba.set(k, byte_of(a + b));
            rgba.set(k + 1, byte_of(a * 2 + b));
            rgba.set(k + 2, byte_of(a * 3 + b));
            rgba.set(k + 3, 255);
        }
        i += 1;
    }
    rgba
}

/// The bytes of a made-up tile.
pub open spec fn tile_data(len: nat, seed: int) -> Seq<u8> {
    Seq::new(len, |j: int| ((j * 7 + seed * 13) % 256) as u8)
}

/// Makes a tile up.
pub fn generate_tile_data(width: u32, height: u32, seed: u32) -> (data: Vec<u8>)
    requires
        width * height * 4 <= u32::MAX,
    ensures
        data@ == tile_data((width * height * 4) as nat, seed as int),
{
    let len: u32 = width * height * 4;
    let mut data: Vec<u8> = Vec::new();
    let mut k: u32 = 0;
    while k < len
        invariant
            k <= len,
            data@.len() == k,
            forall|j: int|
                0 <= j < k ==> #[trigger] data@[j] == ((j * 7 + seed * 13) % 256) as u8,
        decreases len - k,
    {
        data.push(byte_of(k as u64 * 7 + seed as u64 * 13));
        k += 1;
    }
    assert(data@ =~= tile_data((width * height * 4) as nat, seed as int));
    data
}

/// How a tile is altered.
#[derive(Clone, Copy, Debug, PartialEq, Eq, Structural)]
pub enum Alteration {
    OnePixel,
    TenPixels,
    /// One row of 48.
    Row,
    /// Every other pixel.
    Half,
    Nothing,
}

/// Bytes with one of them's lowest bit turned.
pub open spec fn bit_turned(data: Seq<u8>, at: int) -> Seq<u8> {
    data.update(at, data[at] ^ 1)
}

/// Bytes after `n` pixels were altered, wrapped around.
pub open spec fn pixels_turned(data: Seq<u8>, n: nat) -> Seq<u8>
    decreases n,
{
    if n == 0 {
        data
    } else {
        bit_turned(pixels_turned(data, (n - 1) as nat), ((n - 1) * 4) % (data.len() as int))
    }
}

/// Bytes with all bits of some of them turned.
pub open spec fn all_bits_turned(data: Seq<u8>, chosen: spec_fn(int) -> bool) -> Seq<u8> {
    Seq::new(data.len(), |j: int| if chosen(j) { data[j] ^ 0xff } else { data[j] })
}

/// Whether byte `j` starts a pixel of the first row of 48.
pub open spec fn in_first_row(len: int, j: int) -> bool {
    j % 4 == 0 && j / 4 < len / 4 / 48
}

/// A tile altered.
pub open spec fn altered(a: Alteration, data: Seq<u8>) -> Seq<u8> {
    match a {
        Alteration::OnePixel => if data.len() >= 4 {
            bit_turned(data, 0)
        } else {
            data
        },
        Alteration::TenPixels => pixels_turned(data, 10),
        Alteration::Row => all_bits_turned(data, |j: int| in_first_row(data.len() as int, j)),
        Alteration::Half => all_bits_turned(data, |j: int| j % 8 == 0),
        Alteration::Nothing => data,
    }
}

proof fn lemma_turned_len(data: Seq<u8>, n: nat)
    requires
        data.len() > 0,
    ensures
        pixels_turned(data, n).len() == data.len(),
    decreases n,
{
    if n > 0 {
        lemma_turned_len(data, (n - 1) as nat);
        lemma_mod_bound((n - 1) * 4, data.len() as int);
    }
}

/// A copy of a tile, altered.
pub fn create_variant(original: &[u8], a: Alteration) -> (variant: Vec<u8>)
    requires
        a == Alteration::TenPixels ==> original@.len() > 0,
    ensures
        variant@ == altered(a, original@),
{
    let len: usize = original.len();
    let mut variant: Vec<u8> = Vec::new();
    variant.extend_from_slice(original);
    assert(variant@ =~= original@);
    match a {
        Alteration::OnePixel => {
            if len >= 4 {
                let v: u8 = variant[0] ^ 1;
                variant.set(0, v);
            }
        },
        Alteration::TenPixels => {
            let mut i: usize = 0;
            while i < 10
                invariant
                    i <= 10,
                    len > 0,
                    len == original@.len(),
                    variant@ == pixels_turned(original@, i as nat),
                decreases 10 - i,
            {
                proof {
                    lemma_turned_len(original@, i as nat);
                }
                let at: usize = (i * 4) % len;
                let v: u8 = variant[at] ^ 1;
                variant.set(at, v);
                i += 1;
            }
        },
        Alteration::Row => {
            turn_bits(&mut variant, len / 4 / 48 * 4, 4);
            assert(variant@ =~= altered(a, original@));
        },
        Alteration::Half => {
            turn_bits(&mut variant, len, 8);
            assert(variant@ =~= altered(a, original@));
        },
        Alteration::Nothing => {},
    }
    variant
}

/// Turns all bits of every `step`th byte before position `end`.
fn turn_bits(data: &mut Vec<u8>, end: usize, step: usize)
    requires
        end <= old(data)@.len(),
        step == 4 || step == 8,
    ensures
        final(data)@.len() == old(data)@.len(),
        forall|j: int|
            0 <= j < old(data)@.len() ==> #[trigger] final(data)@[j] == (if j < end && j
                % step as int == 0 {
                old(data)@[j] ^ 0xff
            } else {
                old(data)@[j]
            }),
{
    let ghost start = data@;
    let mut k: usize = 0;
    while k < end
        invariant
            k <= end <= start.len(),
            step == 4 || step == 8,
            data@.len() == start.len(),
            forall|j: int|
                0 <= j < start.len() ==> #[trigger] data@[j] == (if j < k && j % step as int == 0 {
                    start[j] ^ 0xff
                } else {
                    start[j]
                }),
        decreases end - k,
    {
        if k % step == 0 {
            let v: u8 = data[k] ^ 0xff;
            data.set(k, v);
        }
        k += 1;
    }
}

/// What a made-up tile looks like.
#[derive(Clone, Copy, Debug, PartialEq, Eq, Structural)]
pub enum Pattern {
    /// Smooth: compresses well.
    Gradient,
    /// Hard to compress.
    Noise,
    /// Sharp edges.
    Text,
    /// A gradient that a seed moves.
    Seeded(u32),
}

/// One byte of a made-up tile.
pub open spec fn pattern_byte(p: Pattern, width: int, height: int, x: int, y: int, c: int) -> u8 {
    let i = (y * width + x) * 4;
    let v = if c == 3 {
        255
    } else {
        match p {
            Pattern::Gradient => if c == 0 {
                x * 255 / width
            } else if c == 1 {
                y * 255 / height
            } else {
                128
            },
            Pattern::Noise => if c == 0 {
                i * 7 + 13
            } else if c == 1 {
                i * 11 + 17
            } else {
                i * 13 + 19
            },
            Pattern::Text => if x % 8 < 4 && y % 16 < 12 {
                255
            } else {
                240
            },
            Pattern::Seeded(seed) => if c == 0 {
                x + seed
            } else if c == 1 {
                y + seed
            } else {
                x + y + seed
            },
        }
    };
    (v % 256) as u8
}

/// A made-up tile.
pub open spec fn pattern_picture(p: Pattern, width: int, height: int) -> Seq<u8> {
    Seq::new(
        (width * height * 4) as nat,
        |j: int| pattern_byte(p, width, height, (j / 4) % width, (j / 4) / width, j % 4),
    )
}

/// Red, green and blue of a pixel of a made-up tile.
fn pattern_pixel(p: Pattern, width: u64, height: u64, x: u64, y: u64) -> (rgb: (u8, u8, u8))
    requires
        x < width <= 0xffff,
        y < height <= 0xffff,
    ensures
        rgb.0 == pattern_byte(p, width as int, height as int, x as int, y as int, 0),
        rgb.1 == pattern_byte(p, width as int, height as int, x as int, y as int, 1),
        rgb.2 == pattern_byte(p, width as int, height as int, x as int, y as int, 2),
{
    assert(0 <= y * width <= 0xffff * 0xffff) by (nonlinear_arith)
        requires
            0 <= y <= 0xffff,
            0 <= width <= 0xffff,
    ;
    match p {
        Pattern::Gradient => (byte_of(x * 255 / width), byte_of(y * 255 / height), 128),
        Pattern::Noise => {
            let i: u64 = (y * width + x) * 4;
            (byte_of(i * 7 + 13), byte_of(i * 11 + 17), byte_of(i * 13 + 19))
        },
        Pattern::Text => {
            if x % 8 < 4 && y % 16 < 12 {
                (255, 255, 255)
            } else {
                (240, 240, 240)
            }
        },
        Pattern::Seeded(seed) => (
            byte_of(x + seed as u64),
            byte_of(y + seed as u64),
            byte_of(x + y + seed as u64),
        ),
    }
}

/// Makes a tile of a pattern up.
pub fn generate_test_tile(width: u32, height: u32, p: Pattern) -> (rgba: Vec<u8>)
    requires
        width <= 0xffff,
        height <= 0xffff,
        width * height * 4 <= usize::MAX,
    ensures
        rgba@ == pattern_picture(p, width as int, height as int),
{
    let ghost picture = pattern_picture(p, width as int, height as int);
    let mut rgba: Vec<u8> = Vec::new();
    let mut y: u32 = 0;
    while y < height
        invariant
            y <= height <= 0xffff,
            width <= 0xffff,
            width * height * 4 <= usize::MAX,
            picture == pattern_picture(p, width as int, height as int),
            rgba@.len() == y * width * 4,
            forall|j: int| 0 <= j < rgba@.len() ==> #[trigger] rgba@[j] == picture[j],
        decreases height - y,
    {
        let mut x: u32 = 0;
        while x < width
            invariant
                x <= width <= 0xffff,
                y < height <= 0xffff,
                width * height * 4 <= usize::MAX,
                picture == pattern_picture(p, width as int, height as int),
                rgba@.len() == (y * width + x) * 4,
                forall|j: int| 0 <= j < rgba@.len() ==> #[trigger] rgba@[j] == picture[j],
            decreases width - x,
        {
            let ghost base = (y * width + x) * 4;
            proof {
                assert(y * width + x < width * height) by (nonlinear_arith)
                    requires
                        0 <= x < width,
                        0 <= y < height,
                ;
                lemma_pixel_place(x as int, y as int, width as int, 0);
                lemma_pixel_place(x as int, y as int, width as int, 1);
                lemma_pixel_place(x as int, y as int, width as int, 2);
                lemma_pixel_place(x as int, y as int, width as int, 3);
            }
            let (r, g, b) = pattern_pixel(p, width as u64, height as u64, x as u64, y as u64);
            rgba.push(r);
            rgba.push(g);
            rgba.push(b);
            rgba.push(255);
            proof {
                assert(rgba@[base] == picture[base]);
                assert(rgba@[base + 1] == picture[base + 1]);
                assert(rgba@[base + 2] == picture[base + 2]);
                assert(rgba@[base + 3] == picture[base + 3]);
                assert((y * width + x + 1) * 4 == base + 4) by (nonlinear_arith)
                    requires
                        base == (y * width + x) * 4,
                ;
            }
            x += 1;
        }
        assert((y + 1) * width * 4 == (y * width + width) * 4) by (nonlinear_arith);
        y += 1;
    }
    assert(height * width * 4 == width * height * 4) by (nonlinear_arith);
    assert(rgba@ =~= picture);
    rgba
}

/// Makes a tile up whose gradient a seed moves.
pub fn generate_realistic_tile(width: u32, height: u32, seed: u32) -> (rgba: Vec<u8>)
    requires
        width <= 0xffff,
        height <= 0xffff,
        width * height * 4 <= usize::MAX,
    ensures
        rgba@ == pattern_picture(Pattern::Seeded(seed), width as int, height as int),
{
    generate_test_tile(width, height, Pattern::Seeded(seed))
}

/// How much of a tile is changed.
#[derive(Clone, Copy, Debug, PartialEq, Eq, Structural)]
pub enum Extent {
    /// One byte.
    Small,
    /// Ten bytes, a hundred apart, wrapped around.
    Medium,
    /// Every eighth byte.
    Large,
}

/// Bytes with one of them raised by one.
pub open spec fn raised(data: Seq<u8>, at: int) -> Seq<u8> {
    data.update(at, data[at].wrapping_add(1))
}

/// Bytes after the first `n` of the ten medium changes.
pub open spec fn raised_medium(data: Seq<u8>, n: nat) -> Seq<u8>
    decreases n,
{
    if n == 0 {
        data
    } else {
        raised(raised_medium(data, (n - 1) as nat), ((n - 1) * 100) % (data.len() as int))
    }
}

/// A changed tile.
pub open spec fn changed_tile(e: Extent, data: Seq<u8>) -> Seq<u8> {
    match e {
        Extent::Small => if data.len() >= 4 {
            raised(data, 0)
        } else {
            data
        },
        Extent::Medium => raised_medium(data, 10),
        Extent::Large => Seq::new(
            data.len(),
            |j: int| if j % 8 == 0 { data[j].wrapping_add(1) } else { data[j] },
        ),
    }
}

proof fn lemma_medium_len(data: Seq<u8>, n: nat)
    requires
        data.len() > 0,
    ensures
        raised_medium(data, n).len() == data.len(),
    decreases n,
{
    if n > 0 {
        lemma_medium_len(data, (n - 1) as nat);
        lemma_mod_bound((n - 1) * 100, data.len() as int);
    }
}

/// Changes a tile.
pub fn apply_change(data: &mut Vec<u8>, e: Extent)
    requires
        e == Extent::Medium ==> old(data)@.len() > 0,
    ensures
        final(data)@ == changed_tile(e, old(data)@),
{
    let ghost start = data@;
    let len: usize = data.len();
    match e {
        Extent::Small => {
            if len >= 4 {
                let v: u8 = data[0].wrapping_add(1);
                data.set(0, v);
            }
        },
        Extent::Medium => {
            let mut i: usize = 0;
            while i < 10
                invariant
                    i <= 10,
                    len > 0,
                    len == start.len(),
                    data@ == raised_medium(start, i as nat),
                decreases 10 - i,
            {
                proof {
                    lemma_medium_len(start, i as nat);
                }
                let at: usize = (i * 100) % len;
                let v: u8 = data[at].wrapping_add(1);
                data.set(at, v);
                i += 1;
            }
        },
        Extent::Large => {
            let mut k: usize = 0;
            while k < len
                invariant
                    k <= len,
                    len == start.len(),
                    data@.len() == len,
                    forall|j: int|
                        0 <= j < k ==> #[trigger] data@[j] == changed_tile(e, start)[j],
                    forall|j: int| k <= j < len ==> #[trigger] data@[j] == start[j],
                    e == Extent::Large,
                decreases len - k,
            {
                if k % 8 == 0 {
                    let v: u8 = data[k].wrapping_add(1);
                    data.set(k, v);
                }
                k += 1;
            }
            assert(data@ =~= changed_tile(e, start));
        },
    }
}

/// Changing a tile a little, or a lot, always changes it, unless it has fewer
/// than four bytes.
pub proof fn law_changes_are_visible(data: Seq<u8>)
    requires
        data.len() >= 4,
    ensures
        changed_tile(Extent::Small, data) != data,
        changed_tile(Extent::Large, data) != data,
        altered(Alteration::OnePixel, data) != data,
        altered(Alteration::Half, data) != data,
        altered(Alteration::Nothing, data) == data,
{
    let v = data[0];
    assert(v.wrapping_add(1) != v);
    assert(v ^ 1 != v) by (bit_vector);
    assert(v ^ 0xff != v) by (bit_vector);
    assert(changed_tile(Extent::Small, data)[0] != v);
    assert(changed_tile(Extent::Large, data)[0] != v);
    assert(altered(Alteration::OnePixel, data)[0] != v);
    assert(altered(Alteration::Half, data)[0] != v);
    assert(altered(Alteration::Nothing, data) =~= data);
}

/// Where byte `c` of a pixel stands in a picture.
pub open spec fn byte_place(width: int, x: int, y: int, c: int) -> int {
    (y * width + x) * 4 + c
}

proof fn lemma_byte_place(width: int, height: int, x: int, y: int, c: int)
    requires
        0 <= x < width,
        0 <= y < height,
        0 <= c < 4,
    ensures
        ({
            let j = byte_place(width, x, y, c);
            &&& 0 <= j < width * height * 4
            &&& j % 4 == c
            &&& (j / 4) % width == x
            &&& (j / 4) / width == y
        }),
{
    let j = byte_place(width, x, y, c);
    assert(0 <= y * width + x < width * height) by (nonlinear_arith)
        requires
            0 <= x < width,
            0 <= y <= height - 1,
    ;
    assert(j / 4 == y * width + x);
    lemma_fundamental_div_mod_converse(y * width + x, width, y, x);
}

/// Frames of a scenario differ only where something happens: elsewhere every byte is 100.
/// Where it does, pixels are opaque.
pub proof fn law_screen_changes_in_its_places_only(
    s: Scenario,
    width: int,
    height: int,
    n: int,
    x: int,
    y: int,
    c: int,
)
    requires
        0 <= x < width,
        0 <= y < height,
        0 <= c < 4,
    ensures
        ({
            let b = scenario_picture(s, width, height, n)[byte_place(width, x, y, c)];
            let clock = 1700 <= x < 1900 && 50 <= y < 80;
            let typed = (200 <= x < 600 && 300 <= y < 360) || (200 <= x < 500 && 450 <= y < 490);
            let page = 300 <= x < 1600 && 100 <= y < 900;
            let film = {
                &&& (width - 640) / 2 <= x < (width - 640) / 2 + 640
                &&& (height - 480) / 2 <= y < (height - 480) / 2 + 480
            };
            let happens = match s {
                Scenario::Static => clock,
                Scenario::Moderate => clock || typed,
                Scenario::Active => page,
                Scenario::Video => film,
            };
            &&& scenario_picture(s, width, height, n).len() == width * height * 4
            &&& !happens ==> b == 100
            &&& happens && c == 3 ==> b == 255
        }),
{
    lemma_byte_place(width, height, x, y, c);
}

/// A changing pixel of the clock, and one of the film, is another one frame later.
pub proof fn law_moving_pixels_move(s: Scenario, n: int, x: int, y: int)
    requires
        0 <= n,
        0 <= x,
        0 <= y,
        s is Static || s is Moderate || s is Video,
    ensures
        changing_byte(s, n, x, y, 0) != changing_byte(s, n + 1, x, y, 0),
{
    let step: int = match s {
        Scenario::Static => 17,
        Scenario::Moderate => 1,
        _ => 7,
    };
    let v = match s {
        Scenario::Static => n * 17,
        Scenario::Moderate => x + y + n,
        _ => x + y + n * 7,
    };
    assert(v % 256 != (v + step) % 256);
}

/// Every pixel of a made-up tile is opaque. A gradient grows from left to right in red and
/// from top to bottom in green, text has two shades, and a seed moves all colours alike.
pub proof fn law_made_up_tiles_look_as_named(
    p: Pattern,
    width: int,
    height: int,
    x: int,
    y: int,
)
    requires
        0 < width <= 0xffff,
        0 < height <= 0xffff,
        0 <= x < width,
        0 <= y < height,
    ensures
        pattern_picture(p, width, height).len() == width * height * 4,
        pattern_picture(p, width, height)[byte_place(width, x, y, 3)] == 255,
        x + 1 < width ==> pattern_byte(Pattern::Gradient, width, height, x, y, 0) <= pattern_byte(
            Pattern::Gradient,
            width,
            height,
            x + 1,
            y,
            0,
        ),
        y + 1 < height ==> pattern_byte(Pattern::Gradient, width, height, x, y, 1) <= pattern_byte(
            Pattern::Gradient,
            width,
            height,
            x,
            y + 1,
            1,
        ),
        ({
            let shade = pattern_byte(Pattern::Text, width, height, x, y, 0);
            &&& shade == 255 <==> x % 8 < 4 && y % 16 < 12
            &&& shade == 255 || shade == 240
        }),
        forall|seed: u32|
            pattern_byte(Pattern::Seeded(seed), width, height, x, y, 0) == (x + seed) % 256
                && pattern_byte(Pattern::Seeded(seed), width, height, x, y, 1) == (y + seed) % 256,
{
    lemma_byte_place(width, height, x, y, 3);
    lemma_share_of_255(x, width);
    lemma_share_of_255(y, height);
    if x + 1 < width {
        lemma_share_of_255(x + 1, width);
        assert(x * 255 / width <= (x + 1) * 255 / width) by (nonlinear_arith)
            requires
                0 <= x,
                0 < width,
        ;
    }
    if y + 1 < height {
        lemma_share_of_255(y + 1, height);
        assert(y * 255 / height <= (y + 1) * 255 / height) by (nonlinear_arith)
            requires
                0 <= y,
                0 < height,
        ;
    }
}

proof fn lemma_share_of_255(x: int, width: int)
    requires
        0 <= x < width,
    ensures
        0 <= x * 255 / width < 256,
{
    assert(0 <= x * 255 / width < 256) by (nonlinear_arith)
        requires
            0 <= x < width,
    ;
}

proof fn lemma_untouched(bytes: Seq<u8>, n: int, count: nat, j: int)
    requires
        bytes.len() > 0,
        0 <= j < bytes.len(),
        forall|i: int|
            0 <= i < count ==> !(#[trigger] change_place(bytes.len() as int, n, i) <= j
                < change_place(bytes.len() as int, n, i) + 4),
    ensures
        after_changes(bytes, n, count)[j] == bytes[j],
    decreases count,
{
    if count > 0 {
        lemma_untouched(bytes, n, (count - 1) as nat, j);
        lemma_changes_keep_len(bytes, n, (count - 1) as nat);
        let at = change_place(bytes.len() as int, n, count - 1);
        lemma_mod_bound((count - 1) * 4 + n * 7, bytes.len() as int);
    }
}

/// A test frame is grey but for the pixels that were changed: each change is four bytes, and
/// stands four bytes after the one before it, seven further for every frame, wrapped around.
pub proof fn law_test_frame_is_grey_elsewhere(width: int, height: int, n: int, count: nat, j: int)
    requires
        width * height * 4 > 0,
        0 <= j < width * height * 4,
        forall|i: int|
            0 <= i < count ==> !(#[trigger] change_place(width * height * 4, n, i) <= j
                < change_place(width * height * 4, n, i) + 4),
    ensures
        test_picture(width, height, n, count).len() == width * height * 4,
        test_picture(width, height, n, count)[j] == 100,
{
    let grey = Seq::new((width * height * 4) as nat, |k: int| 100u8);
    lemma_changes_keep_len(grey, n, count);
    lemma_untouched(grey, n, count, j);
}

/// The last change of a frame that fits stands where it goes, opaque.
pub proof fn law_test_frame_shows_the_last_change(width: int, height: int, n: int, i: int)
    requires
        width * height * 4 > 0,
        0 <= n,
        0 <= i,
        (i * 4 + n * 7) % (width * height * 4) + 3 < width * height * 4,
    ensures
        ({
            let at = (i * 4 + n * 7) % (width * height * 4);
            let picture = test_picture(width, height, n, (i + 1) as nat);
            &&& picture[at] == (n + i) % 256
            &&& picture[at + 1] == (n * 2 + i) % 256
            &&& picture[at + 2] == (n * 3 + i) % 256
            &&& picture[at + 3] == 255
        }),
{
    let grey = Seq::new((width * height * 4) as nat, |k: int| 100u8);
    lemma_changes_keep_len(grey, n, i as nat);
    lemma_mod_bound(i * 4 + n * 7, width * height * 4);
}

proof fn lemma_turned_bytes(data: Seq<u8>, n: nat, j: int)
    requires
        n * 4 <= data.len(),
        0 <= j < data.len(),
    ensures
        pixels_turned(data, n).len() == data.len(),
        pixels_turned(data, n)[j] == if j % 4 == 0 && j < n * 4 {
            data[j] ^ 1
        } else {
            data[j]
        },
    decreases n,
{
    if n > 0 {
        lemma_turned_bytes(data, (n - 1) as nat, j);
        lemma_turned_bytes(data, (n - 1) as nat, (n - 1) * 4);
        vstd::arithmetic::div_mod::lemma_small_mod(((n - 1) * 4) as nat, data.len());
    }
}

/// What an alteration touches of a tile of at least ten pixels: the first byte, the first
/// bytes of the first ten pixels, those of the first forty-eighth of its pixels, or those of
/// every other pixel. Nothing else changes.
pub proof fn law_alterations_touch_what_they_name(data: Seq<u8>, j: int)
    requires
        data.len() >= 40,
        0 <= j < data.len(),
    ensures
        altered(Alteration::OnePixel, data)[j] != data[j] <==> j == 0,
        altered(Alteration::TenPixels, data)[j] != data[j] <==> j % 4 == 0 && j < 40,
        altered(Alteration::Row, data)[j] != data[j] <==> j % 4 == 0 && j / 4 < data.len() as int / 4
            / 48,
        altered(Alteration::Half, data)[j] != data[j] <==> j % 8 == 0,
        altered(Alteration::Nothing, data)[j] == data[j],
{
    let v = data[j];
    assert(v ^ 1 != v && v ^ 0xff != v) by (bit_vector);
    lemma_turned_bytes(data, 10, j);
}

proof fn lemma_raised_bytes(data: Seq<u8>, n: nat, j: int)
    requires
        n <= 10,
        data.len() > 900,
        0 <= j < data.len(),
    ensures
        raised_medium(data, n).len() == data.len(),
        raised_medium(data, n)[j] == if j % 100 == 0 && j < n * 100 {
            data[j].wrapping_add(1)
        } else {
            data[j]
        },
    decreases n,
{
    if n > 0 {
        lemma_raised_bytes(data, (n - 1) as nat, j);
        lemma_raised_bytes(data, (n - 1) as nat, (n - 1) * 100);
        vstd::arithmetic::div_mod::lemma_small_mod(((n - 1) * 100) as nat, data.len());
    }
}

/// What a change touches of a tile of more than nine hundred bytes: the first byte, ten
/// bytes a hundred apart, or every eighth byte. Nothing else changes.
pub proof fn law_changes_touch_what_they_name(data: Seq<u8>, j: int)
    requires
        data.len() > 900,
        0 <= j < data.len(),
    ensures
        changed_tile(Extent::Small, data)[j] != data[j] <==> j == 0,
        changed_tile(Extent::Medium, data)[j] != data[j] <==> j % 100 == 0 && j < 1000,
        changed_tile(Extent::Large, data)[j] != data[j] <==> j % 8 == 0,
{
    lemma_raised_bytes(data, 10, j);
}

} // verus!
