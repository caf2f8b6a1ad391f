//! Deterministic color mapping: directories and aggregates shade along a
//! fixed band scaled by the square root of their relative size; files hash
//! their extension to a hue/saturation/lightness triple, converted to RGB
//! in exact fixed-point arithmetic and memoized per extension.
use crate::tree::Node;
use vstd::prelude::*;

verus! {

/// One 24-bit color.
#[derive(Clone, Copy, PartialEq, Eq, Structural, Debug)]
pub struct Rgb {
    pub r: u8,
    pub g: u8,
    pub b: u8,
}

/// What a tile is painted with.
#[derive(Clone, Copy, PartialEq, Eq, Structural, Debug)]
pub enum NodeColor {
    /// The terminal's dark gray, used when the level holds no bytes.
    DarkGray,
    /// A computed 24-bit shade.
    Shade(Rgb),
}

/// The digest that seahash assigns to a string's bytes.
pub uninterp spec fn seahash_of(s: Seq<char>) -> u64;

/// Relies on `seahash::hash`, which digests the byte content with a fixed
/// built-in seed: the result is a function of the characters alone.
#[verifier::external_body]
fn hash_str(s: &str) -> (h: u64)
    ensures
        h == seahash_of(s@),
{
    seahash::hash(s.as_bytes())
}

/// The lowercase form of a string.
pub uninterp spec fn lower_of(s: Seq<char>) -> Seq<char>;

/// Relies on `str::to_lowercase`: the result depends on the characters
/// alone, and an empty string stays empty.
#[verifier::external_body]
fn lowercase(s: &str) -> (r: String)
    ensures
        r@ == lower_of(s@),
        s@.len() == 0 ==> r@.len() == 0,
{
    s.to_lowercase()
}

pub open spec fn abs_i(x: int) -> int {
    if x < 0 {
        -x
    } else {
        x
    }
}

/// The integer square root: the largest `r` with `r * r <= n`.
pub open spec fn sqrt_floor(n: int) -> int
    decreases n,
{
    if n <= 0 {
        0
    } else {
        let p = sqrt_floor(n - 1);
        if (p + 1) * (p + 1) <= n {
            p + 1
        } else {
            p
        }
    }
}

pub proof fn lemma_sqrt_floor_bracket(n: int)
    requires
        n >= 0,
    ensures
        0 <= sqrt_floor(n),
        sqrt_floor(n) * sqrt_floor(n) <= n,
        n < (sqrt_floor(n) + 1) * (sqrt_floor(n) + 1),
    decreases n,
{
    if n > 0 {
        lemma_sqrt_floor_bracket(n - 1);
        let p = sqrt_floor(n - 1);
        if (p + 1) * (p + 1) <= n {
            assert(n < (p + 2) * (p + 2)) by (nonlinear_arith)
                requires
                    p >= 0,
                    n - 1 < (p + 1) * (p + 1),
            ;
        }
    }
}

proof fn lemma_sqrt_floor_unique(a: int, n: int)
    requires
        n >= 0,
        a >= 0,
        a * a <= n,
        n < (a + 1) * (a + 1),
    ensures
        a == sqrt_floor(n),
{
    lemma_sqrt_floor_bracket(n);
    let b = sqrt_floor(n);
    assert(a == b) by (nonlinear_arith)
        requires
            a >= 0,
            b >= 0,
            a * a <= n,
            n < (a + 1) * (a + 1),
            b * b <= n,
            n < (b + 1) * (b + 1),
    ;
}

/// Integer square root of `n`.
fn isqrt(n: u64) -> (r: u64)
    requires
        n <= 0x1_0000_0000,
    ensures
        r == sqrt_floor(n as int),
{
    let mut r: u64 = 0;
    let mut done: bool = false;
    while !done
        invariant
            n <= 0x1_0000_0000,
            r * r <= n,
            r <= n,
            r <= 0x1_0000,
            done ==> n < (r + 1) * (r + 1),
        decreases 2 * (n - r) + (if done {
            0int
        } else {
            1int
        }),
    {
        proof {
            let rr = r as int;
            assert((rr + 1) * (rr + 1) <= 0x1_0001 * 0x1_0001) by (nonlinear_arith)
                requires
                    0 <= rr <= 0x1_0000,
            ;
        }
        let nx: u64 = (r + 1) * (r + 1);
        if nx <= n {
            proof {
                let rr = r as int;
                let nn = n as int;
                assert(rr + 1 <= 0x1_0000 && rr + 1 <= nn) by (nonlinear_arith)
                    requires
                        rr >= 0,
                        (rr + 1) * (rr + 1) <= nn,
                        nn <= 0x1_0000_0000,
                ;
            }
            r = r + 1;
        } else {
            done = true;
        }
    }
    proof {
        lemma_sqrt_floor_unique(r as int, n as int);
    }
    r
}

/// Chroma of an HSL color, scaled by ten thousand; saturation and
/// lightness come in hundredths.
pub open spec fn chroma_e4(sc: int, lc: int) -> int {
    (100 - abs_i(2 * lc - 100)) * sc
}

/// Distance factor of the hue within its sextant pair, in sixtieths.
pub open spec fn hue_off(h: int) -> int {
    60 - abs_i(h % 120 - 60)
}

/// One RGB channel from a fixed-point value over six hundred thousand:
/// scaled to 255 and clamped to a byte.
pub open spec fn channel_of(v: int) -> int {
    let t = v * 255 / 600000;
    if t > 255 {
        255
    } else {
        t
    }
}

/// Exact fixed-point HSL to RGB conversion: hue in degrees, saturation
/// and lightness in hundredths.
pub open spec fn spec_hsl_to_rgb(h: int, sc: int, lc: int) -> Rgb {
    let c = chroma_e4(sc, lc) * 60;
    let x = chroma_e4(sc, lc) * hue_off(h);
    let m = lc * 6000 - chroma_e4(sc, lc) * 30;
    let rgb = if h < 60 {
        (c, x, 0int)
    } else if h < 120 {
        (x, c, 0int)
    } else if h < 180 {
        (0int, c, x)
    } else if h < 240 {
        (0int, x, c)
    } else if h < 300 {
        (x, 0int, c)
    } else {
        (c, 0int, x)
    };
    Rgb {
        r: channel_of(rgb.0 + m) as u8,
        g: channel_of(rgb.1 + m) as u8,
        b: channel_of(rgb.2 + m) as u8,
    }
}

/// A byte channel from a fixed-point value over six hundred thousand.
fn channel(v: u32) -> (r: u8)
    requires
        v <= 1_300_000,
    ensures
        r == channel_of(v as int),
{
    let t: u32 = v * 255 / 600000;
    if t > 255 {
        255
    } else {
        t as u8
    }
}

/// Convert an HSL triple to RGB in exact fixed-point arithmetic.
pub fn hsl_to_rgb(h: u16, sc: u8, lc: u8) -> (rgb: Rgb)
    requires
        h < 360,
        sc <= 100,
        lc <= 100,
    ensures
        rgb == spec_hsl_to_rgb(h as int, sc as int, lc as int),
{
    let two_l: u32 = 2 * (lc as u32);
    let d: u32 = if two_l >= 100 {
        two_l - 100
    } else {
        100 - two_l
    };
    proof {
        assert((100 - d as int) * (sc as int) <= 10000) by (nonlinear_arith)
            requires
                d <= 100,
                0 <= sc <= 100,
        ;
    }
    let c_e4: u32 = (100 - d) * (sc as u32);
    let h120: u32 = (h as u32) % 120;
    let hd: u32 = if h120 >= 60 {
        h120 - 60
    } else {
        60 - h120
    };
    proof {
        assert((100 - d as int) * (sc as int) <= 10000) by (nonlinear_arith)
            requires
                d <= 100,
                0 <= sc <= 100,
        ;
        assert(c_e4 as int * (60 - hd as int) <= 600000) by (nonlinear_arith)
            requires
                c_e4 <= 10000,
                hd <= 60,
        ;
    }
    let c: u32 = c_e4 * 60;
    let x: u32 = c_e4 * (60 - hd);
    proof {
        let lci = lc as int;
        let sci = sc as int;
        let ce4 = chroma_e4(sci, lci);
        assert(c_e4 == ce4);
        assert(ce4 * 30 <= lci * 6000) by (nonlinear_arith)
            requires
                ce4 == (100 - abs_i(2 * lci - 100)) * sci,
                0 <= sci <= 100,
                0 <= lci <= 100,
        ;
        assert(ce4 * 60 <= 600000 && ce4 * (60 - abs_i((h as int) % 120 - 60)) <= 600000)
            by (nonlinear_arith)
            requires
                ce4 == (100 - abs_i(2 * lci - 100)) * sci,
                0 <= sci <= 100,
                0 <= lci <= 100,
                0 <= (h as int) % 120 < 120,
        ;
    }
    let m: u32 = (lc as u32) * 6000 - c_e4 * 30;
    let (vr, vg, vb): (u32, u32, u32) = if h < 60 {
        (c, x, 0)
    } else if h < 120 {
        (x, c, 0)
    } else if h < 180 {
        (0, c, x)
    } else if h < 240 {
        (0, x, c)
    } else if h < 300 {
        (x, 0, c)
    } else {
        (c, 0, x)
    };
    Rgb { r: channel(vr + m), g: channel(vg + m), b: channel(vb + m) }
}

/// The color a hash digest selects: bit slices of the digest pick a hue,
/// a saturation in a fixed narrow band, and a lightness in a fixed narrow
/// band.
pub open spec fn spec_color_from_hash(h: u64) -> Rgb {
    spec_hsl_to_rgb(
        ((h >> 32) % 360) as int,
        65 + ((h >> 16) % 15) as int * 2,
        55 + ((h >> 8) % 15) as int * 2,
    )
}

/// Map a hash digest to its display color.
pub fn color_from_hash(h: u64) -> (rgb: Rgb)
    ensures
        rgb == spec_color_from_hash(h),
{
    let hue: u16 = ((h >> 32) % 360) as u16;
    let sat: u8 = (65 + ((h >> 16) % 15) * 2) as u8;
    let light: u8 = (55 + ((h >> 8) % 15) * 2) as u8;
    proof {
        assert((h >> 32) % 360 < 360) by (bit_vector);
        assert((h >> 16) % 15 < 15) by (bit_vector);
        assert((h >> 8) % 15 < 15) by (bit_vector);
    }
    hsl_to_rgb(hue, sat, light)
}

/// The fixed neutral gray of extension-less files.
pub open spec fn neutral_gray() -> Rgb {
    Rgb { r: 150, g: 150, b: 150 }
}

/// The color an extension maps to: neutral gray when the case-folded
/// extension is empty, otherwise the color its hash digest selects.
pub open spec fn spec_extension_color(e: Seq<char>) -> Rgb {
    if lower_of(e).len() == 0 {
        neutral_gray()
    } else {
        spec_color_from_hash(seahash_of(lower_of(e)))
    }
}

/// The extension color for an optional extension; a missing extension is
/// treated as empty.
pub open spec fn spec_extension_color_opt(e: Option<Seq<char>>) -> Rgb {
    match e {
        Some(s) => spec_extension_color(s),
        None => spec_extension_color(Seq::empty()),
    }
}

/// The per-process memo of extension colors. Identical extension strings
/// always map to identical colors; the cache only ever holds what the
/// hash of the key selects.
pub struct ColorCache {
    map: vstd::hash_map::StringHashMap<Rgb>,
}

impl ColorCache {
    /// Every memoized entry equals the color its key's digest selects.
    pub closed spec fn wf(&self) -> bool {
        forall|k: Seq<char>|
            #[trigger] self.map@.dom().contains(k) ==> self.map@[k] == spec_color_from_hash(
                seahash_of(k),
            )
    }

    /// An empty cache.
    pub fn new() -> (c: ColorCache)
        ensures
            c.wf(),
    {
        ColorCache { map: vstd::hash_map::StringHashMap::new() }
    }

    /// The memoized color of a file extension: neutral gray for a missing
    /// or empty extension, otherwise the color selected by the hash of the
    /// case-folded extension, computed once and remembered.
    pub fn color_for_extension(&mut self, ext: Option<&str>) -> (rgb: Rgb)
        requires
            old(self).wf(),
        ensures
            final(self).wf(),
            rgb == spec_extension_color_opt(
                match ext {
                    Some(s) => Some(s@),
                    None => None,
                },
            ),
            (match ext {
                Some(s) => s@.len() == 0,
                None => true,
            }) ==> rgb == neutral_gray(),
    {
        let e: &str = match ext {
            Some(s) => s,
            None => "",
        };
        proof {
            if ext is None {
                reveal_strlit("");
                assert(""@ =~= Seq::<char>::empty());
            }
        }
        let lower: String = lowercase(e);
        if lower.as_str().is_empty() {
            return Rgb { r: 150, g: 150, b: 150 };
        }
        let cached: Option<&Rgb> = self.map.get(lower.as_str());
        match cached {
            Some(c) => *c,
            None => {
                let h: u64 = hash_str(lower.as_str());
                let rgb: Rgb = color_from_hash(h);
                self.map.insert(lower, rgb);
                rgb
            },
        }
    }
}

/// Index of the last dot in a name, or `-1` when there is none.
pub open spec fn last_dot(s: Seq<char>) -> int
    decreases s.len(),
{
    if s.len() == 0 {
        -1
    } else if s.last() == '.' {
        s.len() - 1
    } else {
        last_dot(s.drop_last())
    }
}

/// The extension of a file name: what follows the last dot, unless the
/// name holds no dot or only a leading one.
pub open spec fn spec_name_ext(s: Seq<char>) -> Option<Seq<char>> {
    let j = last_dot(s);
    if j >= 1 {
        Some(s.subrange(j + 1, s.len() as int))
    } else {
        None
    }
}

proof fn lemma_last_dot_prefix_step(s: Seq<char>, i: int)
    requires
        0 <= i < s.len(),
    ensures
        last_dot(s.subrange(0, i + 1)) == if s[i] == '.' {
            i
        } else {
            last_dot(s.subrange(0, i))
        },
{
    assert(s.subrange(0, i + 1).drop_last() =~= s.subrange(0, i));
    assert(s.subrange(0, i + 1).last() == s[i]);
}

/// The extension of a file name, if it has one.
pub fn extension_of(name: &str) -> (r: Option<String>)
    ensures
        match r {
            Some(e) => spec_name_ext(name@) == Some(e@),
            None => spec_name_ext(name@) is None,
        },
{
    let n: usize = name.unicode_len();
    let mut found: usize = 0;
    let mut has: bool = false;
    let mut i: usize = 0;
    proof {
        assert(name@.subrange(0, 0) =~= Seq::<char>::empty());
    }
    while i < n
        invariant
            n == name@.len(),
            i <= n,
            has ==> found < i,
            last_dot(name@.subrange(0, i as int)) == if has {
                found as int
            } else {
                -1int
            },
        decreases n - i,
    {
        proof {
            lemma_last_dot_prefix_step(name@, i as int);
        }
        let c: char = name.get_char(i);
        if c == '.' {
            found = i;
            has = true;
        }
        i = i + 1;
    }
    proof {
        assert(name@.subrange(0, n as int) =~= name@);
    }
    if has && found >= 1 {
        let e: &str = name.substring_char(found + 1, n);
        Some(e.to_owned())
    } else {
        None
    }
}

/// The brightness band a node's relative weight selects: 90 plus the
/// square root of the size ratio scaled to 165.
pub open spec fn spec_brightness(size: u64, total: u64) -> int {
    90 + sqrt_floor(27225 * size / (total as int))
}

/// The gray shade of the aggregate bucket.
pub open spec fn spec_other_gray(br: int) -> Rgb {
    let g0 = if br >= 30 {
        br - 30
    } else {
        0
    };
    let g = if g0 < 60 {
        60
    } else if g0 > 180 {
        180
    } else {
        g0
    };
    Rgb { r: g as u8, g: g as u8, b: g as u8 }
}

pub open spec fn clamp_i(v: int, lo: int, hi: int) -> int {
    if v < lo {
        lo
    } else if v > hi {
        hi
    } else {
        v
    }
}

/// The blue-green shade of a directory tile.
pub open spec fn spec_dir_shade(br: int) -> Rgb {
    Rgb {
        r: clamp_i(br / 4, 30, 120) as u8,
        g: clamp_i(br * 2 / 3, 100, 220) as u8,
        b: clamp_i(br * 3 / 4 + 40, 120, 255) as u8,
    }
}

/// One channel of a file tile: pushed away from the channel average by
/// the size-derived factor (over ten thousand), then clamped.
pub open spec fn spec_mod_channel(ch: int, s3: int, f: int) -> int {
    let v = if 3 * ch >= s3 {
        ch + (3 * ch - s3) * f / 30000
    } else {
        ch - ((s3 - 3 * ch) * f + 29999) / 30000
    };
    clamp_i(v, 60, 255)
}

/// The saturation-push factor of a node, over ten thousand.
pub open spec fn spec_factor(size: u64, total: u64) -> int {
    6000 + 8 * sqrt_floor(1000000 * size / (total as int))
}

/// The shade of a file tile: its extension color modulated by its weight.
pub open spec fn spec_file_shade(base: Rgb, size: u64, total: u64) -> Rgb {
    let s3 = base.r + base.g + base.b;
    let f = spec_factor(size, total);
    Rgb {
        r: spec_mod_channel(base.r as int, s3 as int, f) as u8,
        g: spec_mod_channel(base.g as int, s3 as int, f) as u8,
        b: spec_mod_channel(base.b as int, s3 as int, f) as u8,
    }
}

/// One modulated channel, in exact integer arithmetic.
fn mod_channel(ch: u8, s3: u32, f: u64) -> (r: u8)
    requires
        s3 <= 765,
        6000 <= f <= 14000,
    ensures
        r == spec_mod_channel(ch as int, s3 as int, f as int),
{
    let t3: u32 = 3 * (ch as u32);
    if t3 >= s3 {
        proof {
            assert((t3 - s3) as int * (f as int) <= 765 * 14000) by (nonlinear_arith)
                requires
                    0 <= (t3 - s3) as int <= 765,
                    0 <= f <= 14000,
            ;
        }
        let add: u64 = (((t3 - s3) as u64) * f) / 30000;
        let v: u64 = (ch as u64) + add;
        if v > 255 {
            255
        } else if v < 60 {
            60
        } else {
            v as u8
        }
    } else {
        proof {
            assert((s3 - t3) as int * (f as int) <= 765 * 14000) by (nonlinear_arith)
                requires
                    0 <= (s3 - t3) as int <= 765,
                    0 <= f <= 14000,
            ;
        }
        let sub: u64 = (((s3 - t3) as u64) * f + 29999) / 30000;
        if (ch as u64) > sub + 60 {
            (ch as u64 - sub) as u8
        } else {
            60
        }
    }
}

/// The display color of one tile, as the renderer asks for it: dark gray
/// when the level is empty; a gray band for the aggregate bucket; a
/// blue-green band for directories; for files, the memoized extension
/// color pushed toward brighter tones for heavier files. The node's
/// weight enters through the square root of its share of `total_size`.
pub fn dynamic_color(
    node: &Node,
    total_size: u64,
    is_other: bool,
    cache: &mut ColorCache,
) -> (c: NodeColor)
    requires
        old(cache).wf(),
        node.size <= total_size,
    ensures
        final(cache).wf(),
        total_size == 0 ==> c == NodeColor::DarkGray,
        total_size > 0 ==> {
            let br = spec_brightness(node.size, total_size);
            if is_other {
                c == NodeColor::Shade(spec_other_gray(br))
            } else if node.is_dir {
                c == NodeColor::Shade(spec_dir_shade(br))
            } else {
                &&& c == NodeColor::Shade(
                    spec_file_shade(
                        spec_extension_color_opt(spec_name_ext(node.name@)),
                        node.size,
                        total_size,
                    ),
                )
                &&& (spec_name_ext(node.name@) is None ==> c == NodeColor::Shade(
                    spec_file_shade(neutral_gray(), node.size, total_size),
                ))
            }
        },
{
    if total_size == 0 {
        return NodeColor::DarkGray;
    }
    proof {
        let s = node.size as int;
        let t = total_size as int;
        assert(0 <= 27225 * s / t <= 27225 && 0 <= 1000000 * s / t <= 1000000)
            by (nonlinear_arith)
            requires
                t > 0,
                0 <= s <= t,
        ;
    }
    let q: u64 = ((27225u128 * (node.size as u128)) / (total_size as u128)) as u64;
    let root: u64 = isqrt(q);
    proof {
        lemma_sqrt_floor_bracket(q as int);
        assert(sqrt_floor(q as int) <= 165) by {
            let sf = sqrt_floor(q as int);
            assert(sf <= 165) by (nonlinear_arith)
                requires
                    sf >= 0,
                    sf * sf <= 27225,
            ;
        }
    }
    let brightness: u8 = (90 + root) as u8;
    if is_other {
        let g0: u8 = if brightness >= 30 {
            brightness - 30
        } else {
            0
        };
        let gray: u8 = if g0 < 60 {
            60
        } else if g0 > 180 {
            180
        } else {
            g0
        };
        return NodeColor::Shade(Rgb { r: gray, g: gray, b: gray });
    }
    if node.is_dir {
        let br: u32 = brightness as u32;
        let rr: u32 = br / 4;
        let gg: u32 = br * 2 / 3;
        let bb: u32 = br * 3 / 4 + 40;
        let rc: u8 = if rr < 30 {
            30
        } else if rr > 120 {
            120
        } else {
            rr as u8
        };
        let gc: u8 = if gg < 100 {
            100
        } else if gg > 220 {
            220
        } else {
            gg as u8
        };
        let bc: u8 = if bb < 120 {
            120
        } else if bb > 255 {
            255
        } else {
            bb as u8
        };
        return NodeColor::Shade(Rgb { r: rc, g: gc, b: bc });
    }
    let ext: Option<String> = extension_of(node.name.as_str());
    let base: Rgb = match &ext {
        Some(s) => cache.color_for_extension(Some(s.as_str())),
        None => cache.color_for_extension(None),
    };
    let qn: u64 = ((1000000u128 * (node.size as u128)) / (total_size as u128)) as u64;
    let ns: u64 = isqrt(qn);
    proof {
        lemma_sqrt_floor_bracket(qn as int);
        assert(sqrt_floor(qn as int) <= 1000) by {
            let sf = sqrt_floor(qn as int);
            assert(sf <= 1000) by (nonlinear_arith)
                requires
                    sf >= 0,
                    sf * sf <= 1000000,
            ;
        }
    }
    let f: u64 = 6000 + 8 * ns;
    let s3: u32 = (base.r as u32) + (base.g as u32) + (base.b as u32);
    NodeColor::Shade(
        Rgb {
            r: mod_channel(base.r, s3, f),
            g: mod_channel(base.g, s3, f),
            b: mod_channel(base.b, s3, f),
        },
    )
}

} // verus!
