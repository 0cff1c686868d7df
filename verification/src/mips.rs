//! Mip chains of square RGBA8 layers, and how chains are packed for upload.
//!
//! Color channels are averaged by a function that the caller supplies (it works
//! in linear light); alpha is coverage and averages arithmetically.

use vstd::prelude::*;

use crate::commands::BufferImageRegion;
use crate::numbers;

verus! {

/// Bytes of one square level of side `w`.
pub open spec fn level_bytes(w: int) -> int {
    4 * (w * w)
}

/// Row or column of the first texel averaged into `x`.
pub open spec fn near(x: int, w: int) -> int {
    if 2 * x < w {
        2 * x
    } else {
        w - 1
    }
}

/// Row or column of the second texel averaged into `x`; odd sides clamp.
pub open spec fn far(x: int, w: int) -> int {
    if 2 * x + 1 < w {
        2 * x + 1
    } else {
        w - 1
    }
}

/// Channel `c` of the texel in row `y`, column `x`.
pub open spec fn texel(p: Seq<u8>, w: int, y: int, x: int, c: int) -> u8 {
    p[(y * w + x) * 4 + c]
}

/// `out` is channel `c` of the texel that stands for row `y`, column `x` of the
/// level below `prev`.
pub open spec fn averaged<F: Fn(u8, u8, u8, u8) -> u8>(
    mean: F,
    prev: Seq<u8>,
    w: int,
    y: int,
    x: int,
    c: int,
    out: u8,
) -> bool {
    let p = texel(prev, w, near(y, w), near(x, w), c);
    let q = texel(prev, w, near(y, w), far(x, w), c);
    let r = texel(prev, w, far(y, w), near(x, w), c);
    let s = texel(prev, w, far(y, w), far(x, w), c);
    if c < 3 {
        call_ensures(mean, (p, q, r, s), out)
    } else {
        out == (p + q + r + s + 2) / 4
    }
}

/// `next` is `prev`, of side `w`, at half its side.
pub open spec fn is_half<F: Fn(u8, u8, u8, u8) -> u8>(
    mean: F,
    prev: Seq<u8>,
    w: int,
    next: Seq<u8>,
) -> bool {
    let nw = numbers::mip_side(w, 1);
    &&& next.len() == level_bytes(nw)
    &&& forall|y: int, x: int, c: int|
        0 <= y < nw && 0 <= x < nw && 0 <= c < 4 ==> averaged(
            mean,
            prev,
            w,
            y,
            x,
            c,
            #[trigger] texel(next, nw, y, x, c),
        )
}

/// The bytes of each level.
pub open spec fn levels_of(mips: Seq<Vec<u8>>) -> Seq<Seq<u8>> {
    Seq::new(mips.len(), |m: int| mips[m]@)
}

/// `mips` are `levels` levels of `base`, each at half the side of the one before.
pub open spec fn is_chain<F: Fn(u8, u8, u8, u8) -> u8>(
    mean: F,
    base: Seq<u8>,
    size: int,
    levels: int,
    mips: Seq<Seq<u8>>,
) -> bool {
    &&& mips.len() == levels
    &&& mips[0] == base
    &&& forall|m: int|
        0 <= m < levels ==> (#[trigger] mips[m]).len() == level_bytes(numbers::mip_side(size, m))
    &&& forall|m: int|
        1 <= m < levels ==> is_half(
            mean,
            mips[m - 1],
            numbers::mip_side(size, m - 1),
            #[trigger] mips[m],
        )
}

proof fn lemma_cell(y: int, x: int, w: int, h: int)
    requires
        0 <= y < h,
        0 <= x < w,
    ensures
        0 <= y * w + x < h * w,
{
    assert(0 <= y * w && y * w + w <= h * w) by (nonlinear_arith)
        requires
            0 <= y < h,
            0 <= w,
    ;
}

/// The four channels of one texel of the next level.
fn average<F: Fn(u8, u8, u8, u8) -> u8>(
    prev: &Vec<u8>,
    w: usize,
    y: usize,
    x: usize,
    mean: &F,
) -> (out: [u8; 4])
    requires
        w >= 1,
        prev.len() == level_bytes(w as int),
        y < numbers::mip_side(w as int, 1),
        x < numbers::mip_side(w as int, 1),
        forall|a: u8, b: u8, c: u8, d: u8| call_requires(*mean, (a, b, c, d)),
    ensures
        forall|c: int|
            0 <= c < 4 ==> averaged(
                *mean,
                prev@,
                w as int,
                y as int,
                x as int,
                c,
                #[trigger] out@[c],
            ),
{
    let top: usize = w - 1;
    let y0: usize = if y <= top / 2 {
        2 * y
    } else {
        top
    };
    let y1: usize = if y0 < top {
        y0 + 1
    } else {
        top
    };
    let x0: usize = if x <= top / 2 {
        2 * x
    } else {
        top
    };
    let x1: usize = if x0 < top {
        x0 + 1
    } else {
        top
    };
    proof {
        assert(numbers::mip_side(w as int, 1) == if w as int / 2 < 1 {
            1
        } else {
            w as int / 2
        }) by {
            assert(numbers::mip_side(w as int, 0) == w);
        }
        assert(y0 == near(y as int, w as int));
        assert(y1 == far(y as int, w as int));
        assert(x0 == near(x as int, w as int));
        assert(x1 == far(x as int, w as int));
        lemma_cell(y0 as int, x0 as int, w as int, w as int);
        lemma_cell(y0 as int, x1 as int, w as int, w as int);
        lemma_cell(y1 as int, x0 as int, w as int, w as int);
        lemma_cell(y1 as int, x1 as int, w as int, w as int);
        assert(0 <= y0 * w && 0 <= y1 * w) by (nonlinear_arith)
            requires
                0 <= y0,
                0 <= y1,
                0 <= w,
        ;
    }
    let a: usize = (y0 * w + x0) * 4;
    let b: usize = (y0 * w + x1) * 4;
    let c: usize = (y1 * w + x0) * 4;
    let d: usize = (y1 * w + x1) * 4;
    let red: u8 = mean(prev[a], prev[b], prev[c], prev[d]);
    let green: u8 = mean(prev[a + 1], prev[b + 1], prev[c + 1], prev[d + 1]);
    let blue: u8 = mean(prev[a + 2], prev[b + 2], prev[c + 2], prev[d + 2]);
    let alpha: u32 = prev[a + 3] as u32 + prev[b + 3] as u32 + prev[c + 3] as u32 + prev[d
        + 3] as u32;
    let coverage: u8 = ((alpha + 2) / 4) as u8;
    [red, green, blue, coverage]
}

/// `prev`, of side `w`, at half its side.
fn halve<F: Fn(u8, u8, u8, u8) -> u8>(prev: &Vec<u8>, w: usize, mean: &F) -> (next: Vec<u8>)
    requires
        w >= 1,
        prev.len() == level_bytes(w as int),
        forall|a: u8, b: u8, c: u8, d: u8| call_requires(*mean, (a, b, c, d)),
    ensures
        is_half(*mean, prev@, w as int, next@),
{
    let nw: usize = if w / 2 < 1 {
        1
    } else {
        w / 2
    };
    let ghost n = nw as int;
    proof {
        assert(numbers::mip_side(w as int, 0) == w);
        assert(nw == numbers::mip_side(w as int, 1));
    }
    let mut next: Vec<u8> = Vec::new();
    let mut y: usize = 0;
    while y < nw
        invariant
            w >= 1,
            n == nw,
            nw == numbers::mip_side(w as int, 1),
            prev.len() == level_bytes(w as int),
            y <= nw,
            next.len() == 4 * (y * nw),
            forall|a: u8, b: u8, c: u8, d: u8| call_requires(*mean, (a, b, c, d)),
            forall|j: int, i: int, c: int|
                0 <= j < y && 0 <= i < n && 0 <= c < 4 ==> averaged(
                    *mean,
                    prev@,
                    w as int,
                    j,
                    i,
                    c,
                    #[trigger] texel(next@, n, j, i, c),
                ),
        decreases nw - y,
    {
        let mut x: usize = 0;
        while x < nw
            invariant
                w >= 1,
                n == nw,
                nw == numbers::mip_side(w as int, 1),
                prev.len() == level_bytes(w as int),
                y < nw,
                x <= nw,
                next.len() == 4 * (y * nw + x),
                forall|a: u8, b: u8, c: u8, d: u8| call_requires(*mean, (a, b, c, d)),
                forall|j: int, i: int, c: int|
                    0 <= j < y && 0 <= i < n && 0 <= c < 4 ==> averaged(
                        *mean,
                        prev@,
                        w as int,
                        j,
                        i,
                        c,
                        #[trigger] texel(next@, n, j, i, c),
                    ),
                forall|i: int, c: int|
                    0 <= i < x && 0 <= c < 4 ==> averaged(
                        *mean,
                        prev@,
                        w as int,
                        y as int,
                        i,
                        c,
                        #[trigger] texel(next@, n, y as int, i, c),
                    ),
            decreases nw - x,
        {
            let ghost before = next@;
            let t = average(prev, w, y, x, mean);
            next.push(t[0]);
            next.push(t[1]);
            next.push(t[2]);
            next.push(t[3]);
            proof {
                assert forall|j: int, i: int, c: int|
                    0 <= j < y && 0 <= i < n && 0 <= c < 4 implies averaged(
                    *mean,
                    prev@,
                    w as int,
                    j,
                    i,
                    c,
                    #[trigger] texel(next@, n, j, i, c),
                ) by {
                    lemma_cell(j, i, n, y as int);
                    assert(texel(before, n, j, i, c) == texel(next@, n, j, i, c));
                }
                assert forall|i: int, c: int| 0 <= i < x + 1 && 0 <= c < 4 implies averaged(
                    *mean,
                    prev@,
                    w as int,
                    y as int,
                    i,
                    c,
                    #[trigger] texel(next@, n, y as int, i, c),
                ) by {
                    assert(0 <= y * n) by (nonlinear_arith)
                        requires
                            0 <= y,
                            0 <= n,
                    ;
                    if i < x {
                        assert(texel(before, n, y as int, i, c) == texel(
                            next@,
                            n,
                            y as int,
                            i,
                            c,
                        ));
                    } else {
                        assert(texel(next@, n, y as int, i, c) == t@[c]);
                    }
                }
            }
            x = x + 1;
        }
        proof {
            assert((y + 1) * nw == y * nw + nw) by (nonlinear_arith);
        }
        y = y + 1;
    }
    next
}

/// `levels` levels of the square layer `base`.
pub fn build_mip_chain<F: Fn(u8, u8, u8, u8) -> u8>(
    base: &Vec<u8>,
    size: u32,
    levels: u32,
    mean: &F,
) -> (mips: Vec<Vec<u8>>)
    requires
        size >= 1,
        base.len() == level_bytes(size as int),
        forall|a: u8, b: u8, c: u8, d: u8| call_requires(*mean, (a, b, c, d)),
    ensures
        is_chain(*mean, base@, size as int, if levels < 1 {
            1
        } else {
            levels as int
        }, levels_of(mips@)),
{
    let levels: u32 = if levels < 1 {
        1
    } else {
        levels
    };
    let mut mips: Vec<Vec<u8>> = Vec::new();
    mips.push(copy_bytes(base));
    let mut w: usize = size as usize;
    let mut m: u32 = 1;
    proof {
        assert(numbers::mip_side(size as int, 0) == size);
        assert(levels_of(mips@)[0] == base@);
    }
    while m < levels
        invariant
            size >= 1,
            1 <= m <= levels,
            w == numbers::mip_side(size as int, m - 1),
            w >= 1,
            is_chain(*mean, base@, size as int, m as int, levels_of(mips@)),
            forall|a: u8, b: u8, c: u8, d: u8| call_requires(*mean, (a, b, c, d)),
        decreases levels - m,
    {
        let last: usize = mips.len() - 1;
        let ghost before = levels_of(mips@);
        proof {
            assert(before[m - 1].len() == level_bytes(numbers::mip_side(size as int, m - 1)));
            assert(numbers::mip_side(w as int, 0) == w);
        }
        let next = halve(&mips[last], w, mean);
        let half: usize = w / 2;
        w = if half < 1 {
            1
        } else {
            half
        };
        mips.push(next);
        proof {
            let all = levels_of(mips@);
            assert(all =~= before.push(next@));
            assert(w == numbers::mip_side(size as int, m as int));
            assert(is_half(
                *mean,
                before[m - 1],
                numbers::mip_side(size as int, m - 1),
                next@,
            ));
        }
        m = m + 1;
    }
    mips
}

/// A copy of `v`.
pub fn copy_bytes(v: &Vec<u8>) -> (r: Vec<u8>)
    ensures
        r@ == v@,
{
    let mut r: Vec<u8> = Vec::new();
    push_bytes(&mut r, v);
    r
}

/// Appends `v`.
pub fn push_bytes(out: &mut Vec<u8>, v: &Vec<u8>)
    ensures
        final(out)@ == old(out)@ + v@,
{
    let ghost orig = out@;
    let mut i: usize = 0;
    while i < v.len()
        invariant
            i <= v.len(),
            out@ == orig + v@.take(i as int),
        decreases v.len() - i,
    {
        out.push(v[i]);
        i = i + 1;
        proof {
            assert(out@ =~= orig + v@.take(i as int));
        }
    }
    proof {
        assert(v@.take(i as int) =~= v@);
        assert(out@ =~= orig + v@);
    }
}

/// Bytes of the levels above level `m` in one chain.
pub open spec fn level_offset(size: int, m: int) -> int
    decreases m,
{
    if m <= 0 {
        0
    } else {
        level_offset(size, m - 1) + level_bytes(numbers::mip_side(size, m - 1))
    }
}

pub proof fn lemma_level_offset_grows(size: int, a: int, b: int)
    requires
        size >= 1,
        a <= b,
    ensures
        0 <= level_offset(size, a) <= level_offset(size, b),
    decreases b,
{
    if b > 0 {
        let w = numbers::mip_side(size, b - 1);
        numbers::lemma_mip_side(size, b - 1);
        assert(w * w >= 0) by (nonlinear_arith);
        if a < b {
            lemma_level_offset_grows(size, a, b - 1);
        } else {
            lemma_level_offset_grows(size, a - 1, b - 1);
        }
    }
}

/// The levels of the chain that starts at byte `at`.
pub open spec fn chain_at(bytes: Seq<u8>, at: int, size: int, levels: int) -> Seq<Seq<u8>> {
    Seq::new(
        levels as nat,
        |m: int|
            bytes.subrange(at + level_offset(size, m), at + level_offset(size, m + 1)),
    )
}

/// The chain of `pixels` starts at byte `at`.
pub open spec fn holds_chain<F: Fn(u8, u8, u8, u8) -> u8>(
    mean: F,
    bytes: Seq<u8>,
    at: int,
    size: int,
    levels: int,
    pixels: Seq<u8>,
) -> bool {
    is_chain(mean, pixels, size, levels, chain_at(bytes, at, size, levels))
}

/// One copy region per level of the chain that starts at byte `at`, into array
/// layer `index`.
pub open spec fn layer_regions(size: int, levels: int, at: int, index: u32) -> Seq<
    BufferImageRegion,
> {
    Seq::new(
        levels as nat,
        |m: int|
            BufferImageRegion {
                buffer_offset: (at + level_offset(size, m)) as u64,
                mip: m as u32,
                base_layer: index,
                layers: 1,
                width: numbers::mip_side(size, m) as u32,
                height: numbers::mip_side(size, m) as u32,
            },
    )
}

/// More bytes behind a chain leave it as it is.
pub proof fn lemma_chain_stays<F: Fn(u8, u8, u8, u8) -> u8>(
    mean: F,
    bytes: Seq<u8>,
    more: Seq<u8>,
    at: int,
    size: int,
    levels: int,
    pixels: Seq<u8>,
)
    requires
        size >= 1,
        levels >= 0,
        0 <= at,
        at + level_offset(size, levels) <= bytes.len() <= more.len(),
        more.take(bytes.len() as int) == bytes,
        holds_chain(mean, bytes, at, size, levels, pixels),
    ensures
        holds_chain(mean, more, at, size, levels, pixels),
{
    let a = chain_at(bytes, at, size, levels);
    let b = chain_at(more, at, size, levels);
    assert forall|m: int| 0 <= m < levels implies a[m] == b[m] by {
        lemma_level_offset_grows(size, m, m + 1);
        lemma_level_offset_grows(size, m + 1, levels);
        assert forall|i: int| 0 <= i < a[m].len() implies a[m][i] == b[m][i] by {
            let k = at + level_offset(size, m) + i;
            assert(bytes[k] == more.take(bytes.len() as int)[k]);
        }
        assert(a[m] =~= b[m]);
    }
    assert(a =~= b);
}

/// A further level behind the first `m`.
proof fn lemma_chain_grows(bytes: Seq<u8>, level: Seq<u8>, at: int, size: int, m: int)
    requires
        size >= 1,
        0 <= m,
        0 <= at,
        bytes.len() == at + level_offset(size, m),
        level.len() == level_bytes(numbers::mip_side(size, m)),
    ensures
        chain_at(bytes + level, at, size, m + 1) == chain_at(bytes, at, size, m).push(level),
{
    let more = bytes + level;
    let a = chain_at(bytes, at, size, m);
    let b = chain_at(more, at, size, m + 1);
    assert forall|j: int| 0 <= j < m + 1 implies b[j] == a.push(level)[j] by {
        lemma_level_offset_grows(size, j, j + 1);
        if j < m {
            lemma_level_offset_grows(size, j + 1, m);
        }
        assert(b[j] =~= a.push(level)[j]);
    }
    assert(b =~= a.push(level));
}

/// Appends the chain of `pixels` and names the copy of each of its levels.
pub fn pack_layer<F: Fn(u8, u8, u8, u8) -> u8>(
    bytes: &mut Vec<u8>,
    size: u32,
    levels: u32,
    index: u32,
    pixels: &Vec<u8>,
    mean: &F,
) -> (regions: Vec<BufferImageRegion>)
    requires
        size >= 1,
        1 <= levels <= 32,
        pixels.len() == level_bytes(size as int),
        forall|a: u8, b: u8, c: u8, d: u8| call_requires(*mean, (a, b, c, d)),
    ensures
        final(bytes).len() == old(bytes).len() + level_offset(size as int, levels as int),
        final(bytes)@.take(old(bytes).len() as int) == old(bytes)@,
        holds_chain(
            *mean,
            final(bytes)@,
            old(bytes).len() as int,
            size as int,
            levels as int,
            pixels@,
        ),
        regions@ == layer_regions(
            size as int,
            levels as int,
            old(bytes).len() as int,
            index,
        ),
{
    let ghost orig = bytes@;
    let ghost at = bytes.len() as int;
    let ghost sz = size as int;
    let mips = build_mip_chain(pixels, size, levels, mean);
    let ghost chain = levels_of(mips@);
    let mut regions: Vec<BufferImageRegion> = Vec::new();
    let mut m: u32 = 0;
    proof {
        assert(orig.take(at) =~= orig);
        assert(chain_at(bytes@, at, sz, 0) =~= chain.take(0));
    }
    while m < levels
        invariant
            size >= 1,
            sz == size,
            1 <= levels <= 32,
            m <= levels,
            chain == levels_of(mips@),
            is_chain(*mean, pixels@, sz, levels as int, chain),
            at == orig.len(),
            bytes.len() == at + level_offset(sz, m as int),
            bytes@.take(at) == orig,
            regions@ == layer_regions(sz, m as int, at, index),
            chain_at(bytes@, at, sz, m as int) == chain.take(m as int),
        decreases levels - m,
    {
        let ghost before = bytes@;
        proof {
            assert(chain[m as int].len() == level_bytes(numbers::mip_side(sz, m as int)));
            lemma_level_offset_grows(sz, m as int, m + 1);
        }
        let offset: u64 = bytes.len() as u64;
        push_bytes(bytes, &mips[m as usize]);
        let side: u32 = numbers::mip_extent(size, m);
        regions.push(
            BufferImageRegion {
                buffer_offset: offset,
                mip: m,
                base_layer: index,
                layers: 1,
                width: side,
                height: side,
            },
        );
        proof {
            assert(bytes@.take(at) =~= before.take(at));
            assert(regions@ =~= layer_regions(sz, m + 1, at, index));
            lemma_chain_grows(before, chain[m as int], at, sz, m as int);
            assert(chain.take(m + 1) =~= chain.take(m as int).push(chain[m as int]));
        }
        m = m + 1;
    }
    proof {
        assert(chain.take(levels as int) =~= chain);
    }
    regions
}

/// Start of level `m` of layer `l` where `n` chains are packed level by level.
pub open spec fn major_offset(n: int, size: int, m: int, l: int) -> int {
    n * level_offset(size, m) + l * level_bytes(numbers::mip_side(size, m))
}

/// The levels of layer `l` where `n` chains are packed level by level.
pub open spec fn major_chain(bytes: Seq<u8>, n: int, l: int, size: int, levels: int) -> Seq<
    Seq<u8>,
> {
    Seq::new(
        levels as nat,
        |m: int|
            bytes.subrange(major_offset(n, size, m, l), major_offset(n, size, m, l + 1)),
    )
}

/// One copy region per level, each covering all `n` layers.
pub open spec fn major_regions(n: int, size: int, levels: int) -> Seq<BufferImageRegion> {
    Seq::new(
        levels as nat,
        |m: int|
            BufferImageRegion {
                buffer_offset: (n * level_offset(size, m)) as u64,
                mip: m as u32,
                base_layer: 0,
                layers: n as u32,
                width: numbers::mip_side(size, m) as u32,
                height: numbers::mip_side(size, m) as u32,
            },
    )
}

proof fn lemma_major_steps(n: int, size: int, m: int, l: int)
    requires
        size >= 1,
        0 <= l <= n,
        m >= 0,
    ensures
        major_offset(n, size, m, l + 1) == major_offset(n, size, m, l) + level_bytes(
            numbers::mip_side(size, m),
        ),
        major_offset(n, size, m, n) == major_offset(n, size, m + 1, 0),
        major_offset(n, size, m, 0) == n * level_offset(size, m),
        0 <= major_offset(n, size, m, l),
        0 <= level_bytes(numbers::mip_side(size, m)),
{
    let lo = level_offset(size, m);
    let w = numbers::mip_side(size, m);
    let lb = level_bytes(w);
    lemma_level_offset_grows(size, 0, m);
    assert(w * w >= 0) by (nonlinear_arith);
    assert((l + 1) * lb == l * lb + lb) by (nonlinear_arith);
    assert(n * (lo + lb) == n * lo + n * lb) by (nonlinear_arith);
    assert(0 <= n * lo && 0 <= l * lb) by (nonlinear_arith)
        requires
            0 <= n,
            0 <= lo,
            0 <= l,
            0 <= lb,
    ;
    let w1 = numbers::mip_side(size, m + 1);
    assert(0 * level_bytes(w1) == 0);
    assert(0 * lb == 0);
}

/// Everything of an earlier level, or of an earlier layer of the same level, ends
/// before level `m` of layer `l` starts.
proof fn lemma_major_order(n: int, size: int, m0: int, l0: int, m: int, l: int)
    requires
        size >= 1,
        0 <= l0 < n,
        0 <= l <= n,
        0 <= m0 <= m,
        m0 < m || l0 < l,
    ensures
        major_offset(n, size, m0, l0 + 1) <= major_offset(n, size, m, l),
    decreases m - m0, n - l0,
{
    lemma_major_steps(n, size, m0, l0);
    lemma_major_steps(n, size, m0, l0 + 1);
    lemma_major_steps(n, size, m, l);
    if m0 == m {
        let lb = level_bytes(numbers::mip_side(size, m));
        assert((l0 + 1) * lb <= l * lb) by (nonlinear_arith)
            requires
                l0 + 1 <= l,
                0 <= lb,
        ;
    } else if l0 + 1 < n {
        lemma_major_order(n, size, m0, l0 + 1, m, l);
    } else if m0 + 1 < m || l > 0 {
        lemma_major_order(n, size, m0 + 1, 0, m, l);
        lemma_major_steps(n, size, m0 + 1, 0);
    }
}

/// Each region reads only staged bytes: its level of all `n` layers lies inside
/// the packed chains.
pub proof fn law_regions_stay_in_the_staged_bytes(n: int, size: int, levels: int, m: int)
    requires
        size >= 1,
        0 <= n,
        0 <= m < levels,
    ensures
        0 <= n * level_offset(size, m),
        n * level_offset(size, m) + n * level_bytes(numbers::mip_side(size, m)) <= major_offset(
            n,
            size,
            levels,
            0,
        ),
{
    lemma_major_steps(n, size, m, 0);
    lemma_major_steps(n, size, m, n);
    lemma_level_offset_grows(size, m + 1, levels);
    lemma_major_steps(n, size, levels, 0);
    let a = level_offset(size, m + 1);
    let b = level_offset(size, levels);
    assert(n * a <= n * b) by (nonlinear_arith)
        requires
            0 <= n,
            a <= b,
    ;
    let w = numbers::mip_side(size, m + 1);
    assert(0 * level_bytes(w) == 0);
}

/// Every layer's bytes.
pub open spec fn pixels_of(layers: Seq<Vec<u8>>) -> Seq<Seq<u8>> {
    Seq::new(layers.len(), |i: int| layers[i]@)
}

/// Level `m` of layer `l` stands where it belongs.
spec fn major_done(
    bytes: Seq<u8>,
    chains: Seq<Vec<Vec<u8>>>,
    size: int,
    m: int,
    l: int,
) -> bool {
    bytes.subrange(
        major_offset(chains.len() as int, size, m, l),
        major_offset(chains.len() as int, size, m, l + 1),
    ) == chains[l]@[m]@
}

/// Packs the chains of all layers level by level, so that each level is one
/// buffer-to-image copy.
#[verifier::rlimit(40)]
pub fn pack_all<F: Fn(u8, u8, u8, u8) -> u8>(
    size: u32,
    levels: u32,
    layers: &Vec<Vec<u8>>,
    mean: &F,
) -> (r: (Vec<u8>, Vec<BufferImageRegion>))
    requires
        size >= 1,
        1 <= levels <= 32,
        layers.len() <= u32::MAX,
        forall|l: int|
            0 <= l < layers.len() ==> (#[trigger] layers[l]).len() == level_bytes(size as int),
        forall|a: u8, b: u8, c: u8, d: u8| call_requires(*mean, (a, b, c, d)),
    ensures
        r.0.len() == major_offset(layers.len() as int, size as int, levels as int, 0),
        forall|l: int|
            0 <= l < layers.len() ==> is_chain(
                *mean,
                #[trigger] layers[l]@,
                size as int,
                levels as int,
                major_chain(r.0@, layers.len() as int, l, size as int, levels as int),
            ),
        r.1@ == major_regions(layers.len() as int, size as int, levels as int),
{
    let ghost sz = size as int;
    let ghost lv = levels as int;
    let n: usize = layers.len();
    let mut chains: Vec<Vec<Vec<u8>>> = Vec::new();
    let mut k: usize = 0;
    while k < n
        invariant
            size >= 1,
            sz == size,
            lv == levels,
            1 <= levels <= 32,
            n == layers.len(),
            k <= n,
            chains.len() == k,
            forall|l: int|
                0 <= l < layers.len() ==> (#[trigger] layers[l]).len() == level_bytes(sz),
            forall|a: u8, b: u8, c: u8, d: u8| call_requires(*mean, (a, b, c, d)),
            forall|l: int|
                0 <= l < k ==> is_chain(
                    *mean,
                    layers[l]@,
                    sz,
                    lv,
                    levels_of(#[trigger] chains[l]@),
                ),
        decreases n - k,
    {
        chains.push(build_mip_chain(&layers[k], size, levels, mean));
        k = k + 1;
    }
    let mut bytes: Vec<u8> = Vec::new();
    let mut regions: Vec<BufferImageRegion> = Vec::new();
    let mut m: u32 = 0;
    proof {
        lemma_major_steps(n as int, sz, 0, 0);
        assert(n * level_offset(sz, 0) == 0);
        assert(regions@ =~= major_regions(n as int, sz, 0));
        assert forall|l: int| 0 <= l < n implies (#[trigger] chains[l]).len() == lv && forall|j: int|
            0 <= j < lv ==> (#[trigger] chains[l]@[j]).len() == level_bytes(
                numbers::mip_side(sz, j),
            ) by {
            let c = levels_of(chains[l]@);
            assert forall|j: int| 0 <= j < lv implies (#[trigger] chains[l]@[j]).len()
                == level_bytes(numbers::mip_side(sz, j)) by {
                assert(c[j].len() == level_bytes(numbers::mip_side(sz, j)));
            }
        }
    }
    while m < levels
        invariant
            size >= 1,
            sz == size,
            lv == levels,
            1 <= levels <= 32,
            m <= levels,
            n == chains.len(),
            n <= u32::MAX,
            bytes.len() == major_offset(n as int, sz, m as int, 0),
            regions@ == major_regions(n as int, sz, m as int),
            forall|l: int|
                0 <= l < n ==> (#[trigger] chains[l]).len() == lv && forall|j: int|
                    0 <= j < lv ==> (#[trigger] chains[l]@[j]).len() == level_bytes(
                        numbers::mip_side(sz, j),
                    ),
            forall|j: int, l: int|
                0 <= j < m && 0 <= l < n ==> #[trigger] major_done(bytes@, chains@, sz, j, l),
        decreases levels - m,
    {
        let offset: u64 = bytes.len() as u64;
        let mut l: usize = 0;
        while l < n
            invariant
                size >= 1,
                sz == size,
                lv == levels,
                m < levels,
                l <= n,
                n == chains.len(),
                bytes.len() == major_offset(n as int, sz, m as int, l as int),
                forall|l: int|
                    0 <= l < n ==> (#[trigger] chains[l]).len() == lv && forall|j: int|
                        0 <= j < lv ==> (#[trigger] chains[l]@[j]).len() == level_bytes(
                            numbers::mip_side(sz, j),
                        ),
                forall|j: int, i: int|
                    0 <= j <= m && 0 <= i < n && (j < m || i < l) ==> #[trigger] major_done(
                        bytes@,
                        chains@,
                        sz,
                        j,
                        i,
                    ),
            decreases n - l,
        {
            let ghost before = bytes@;
            proof {
                assert(chains[l as int].len() == lv);
                lemma_major_steps(n as int, sz, m as int, l as int);
            }
            push_bytes(&mut bytes, &chains[l][m as usize]);
            proof {
                assert forall|j: int, i: int|
                    0 <= j <= m && 0 <= i < n && (j < m || i < l + 1) implies #[trigger] major_done(
                    bytes@,
                    chains@,
                    sz,
                    j,
                    i,
                ) by {
                    lemma_major_steps(n as int, sz, j, i);
                    let a = major_offset(n as int, sz, j, i);
                    let b = major_offset(n as int, sz, j, i + 1);
                    if j < m || i < l {
                        lemma_major_order(n as int, sz, j, i, m as int, l as int);
                        assert(major_done(before, chains@, sz, j, i));
                        assert(bytes@.subrange(a, b) =~= before.subrange(a, b));
                    } else {
                        assert(bytes@.subrange(a, b) =~= chains[l as int]@[m as int]@);
                    }
                }
            }
            l = l + 1;
        }
        let side: u32 = numbers::mip_extent(size, m);
        regions.push(
            BufferImageRegion {
                buffer_offset: offset,
                mip: m,
                base_layer: 0,
                layers: n as u32,
                width: side,
                height: side,
            },
        );
        proof {
            lemma_major_steps(n as int, sz, m as int, 0);
            assert(regions@ =~= major_regions(n as int, sz, m + 1));
        }
        m = m + 1;
    }
    proof {
        assert forall|l: int| 0 <= l < layers.len() implies is_chain(
            *mean,
            #[trigger] layers[l]@,
            sz,
            lv,
            major_chain(bytes@, n as int, l, sz, lv),
        ) by {
            let a = levels_of(chains[l]@);
            let b = major_chain(bytes@, n as int, l, sz, lv);
            assert forall|j: int| 0 <= j < lv implies a[j] == b[j] by {
                assert(major_done(bytes@, chains@, sz, j, l));
            }
            assert(a =~= b);
        }
    }
    (bytes, regions)
}

/// Two rows of two texels make one: the texel in row `y`, column `x` of the next level is
/// made of the texels in rows `2y` and `2y + 1`, columns `2x` and `2x + 1` and of no
/// others, in that order. The next level has half as many rows and columns.
pub proof fn law_a_texel_is_the_mean_of_its_block<F: Fn(u8, u8, u8, u8) -> u8>(
    mean: F,
    prev: Seq<u8>,
    w: int,
    next: Seq<u8>,
    y: int,
    x: int,
    c: int,
)
    requires
        w >= 2,
        is_half(mean, prev, w, next),
        0 <= y < w / 2,
        0 <= x < w / 2,
        0 <= c < 4,
    ensures
        next.len() == 4 * ((w / 2) * (w / 2)),
        c < 3 ==> call_ensures(
            mean,
            (
                prev[4 * ((2 * y) * w + 2 * x) + c],
                prev[4 * ((2 * y) * w + 2 * x + 1) + c],
                prev[4 * ((2 * y + 1) * w + 2 * x) + c],
                prev[4 * ((2 * y + 1) * w + 2 * x + 1) + c],
            ),
            next[4 * (y * (w / 2) + x) + c],
        ),
        c == 3 ==> -2 <= prev[4 * ((2 * y) * w + 2 * x) + 3] + prev[4 * ((2 * y) * w + 2 * x + 1)
            + 3] + prev[4 * ((2 * y + 1) * w + 2 * x) + 3] + prev[4 * ((2 * y + 1) * w + 2 * x + 1)
            + 3] - 4 * next[4 * (y * (w / 2) + x) + 3] <= 1,
{
    assert(numbers::mip_side(w, 0) == w);
    assert(numbers::mip_side(w, 1) == w / 2);
    assert(averaged(mean, prev, w, y, x, c, texel(next, w / 2, y, x, c)));
    assert(near(y, w) == 2 * y && far(y, w) == 2 * y + 1);
    assert(near(x, w) == 2 * x && far(x, w) == 2 * x + 1);
}

/// A level of one texel is followed by the mean of four times that texel.
pub proof fn law_a_single_texel_stays_single<F: Fn(u8, u8, u8, u8) -> u8>(
    mean: F,
    prev: Seq<u8>,
    next: Seq<u8>,
)
    requires
        is_half(mean, prev, 1, next),
    ensures
        next.len() == 4,
        forall|c: int|
            0 <= c < 3 ==> call_ensures(
                mean,
                (#[trigger] prev[c], prev[c], prev[c], prev[c]),
                next[c],
            ),
        next[3] == prev[3],
{
    assert(numbers::mip_side(1, 0) == 1);
    assert(numbers::mip_side(1, 1) == 1);
    assert(1int * 1int == 1) by (nonlinear_arith);
    assert forall|c: int| 0 <= c < 4 implies averaged(
        mean,
        prev,
        1,
        0,
        0,
        c,
        #[trigger] next[c],
    ) by {
        assert(texel(next, 1, 0, 0, c) == next[c]);
    }
    assert forall|c: int| 0 <= c < 3 implies call_ensures(
        mean,
        (#[trigger] prev[c], prev[c], prev[c], prev[c]),
        next[c],
    ) by {
        assert(averaged(mean, prev, 1, 0, 0, c, next[c]));
        assert(texel(prev, 1, 0, 0, c) == prev[c]);
    }
    assert(averaged(mean, prev, 1, 0, 0, 3, next[3]));
    assert(texel(prev, 1, 0, 0, 3) == prev[3]);
}

/// The coverage of the first `n` texels of row `y`.
pub open spec fn row_coverage(p: Seq<u8>, w: int, y: int, n: int) -> int
    decreases n,
{
    if n <= 0 {
        0
    } else {
        row_coverage(p, w, y, n - 1) + p[4 * (y * w + n - 1) + 3]
    }
}

/// The coverage of the first `n` rows.
pub open spec fn coverage(p: Seq<u8>, w: int, n: int) -> int
    decreases n,
{
    if n <= 0 {
        0
    } else {
        coverage(p, w, n - 1) + row_coverage(p, w, n - 1, w)
    }
}

proof fn lemma_row_coverage<F: Fn(u8, u8, u8, u8) -> u8>(
    mean: F,
    prev: Seq<u8>,
    w: int,
    next: Seq<u8>,
    y: int,
    n: int,
)
    requires
        w >= 2,
        is_half(mean, prev, w, next),
        0 <= y < w / 2,
        0 <= n <= w / 2,
    ensures
        -2 * n <= row_coverage(prev, w, 2 * y, 2 * n) + row_coverage(prev, w, 2 * y + 1, 2 * n) - 4
            * row_coverage(next, w / 2, y, n) <= n,
    decreases n,
{
    if n > 0 {
        lemma_row_coverage(mean, prev, w, next, y, n - 1);
        law_a_texel_is_the_mean_of_its_block(mean, prev, w, next, y, n - 1, 3);
        reveal_with_fuel(row_coverage, 3);
        assert((2 * y) * w + 2 * n - 1 == (2 * y) * w + 2 * (n - 1) + 1);
        assert((2 * y + 1) * w + 2 * n - 1 == (2 * y + 1) * w + 2 * (n - 1) + 1);
        assert((2 * y) * w + (2 * n - 1) - 1 == (2 * y) * w + 2 * (n - 1));
        assert((2 * y + 1) * w + (2 * n - 1) - 1 == (2 * y + 1) * w + 2 * (n - 1));
        assert(y * (w / 2) + n - 1 == y * (w / 2) + (n - 1));
    }
}

proof fn lemma_coverage<F: Fn(u8, u8, u8, u8) -> u8>(
    mean: F,
    prev: Seq<u8>,
    w: int,
    next: Seq<u8>,
    n: int,
)
    requires
        w >= 2,
        w % 2 == 0,
        is_half(mean, prev, w, next),
        0 <= n <= w / 2,
    ensures
        -2 * (n * (w / 2)) <= coverage(prev, w, 2 * n) - 4 * coverage(next, w / 2, n) <= n * (w
            / 2),
    decreases n,
{
    if n > 0 {
        lemma_coverage(mean, prev, w, next, n - 1);
        lemma_row_coverage(mean, prev, w, next, n - 1, w / 2);
        assert(2 * (w / 2) == w);
        reveal_with_fuel(coverage, 3);
        assert(2 * (n - 1) + 1 == 2 * n - 1);
        assert(n * (w / 2) == (n - 1) * (w / 2) + w / 2) by (nonlinear_arith);
    } else {
        assert(n * (w / 2) == 0) by (nonlinear_arith)
            requires
                n == 0,
        ;
    }
}

/// Where the side is even no texel is dropped and none counts twice: four times the
/// coverage of the next level is the coverage of this one, but for the rounding of each of
/// its texels.
pub proof fn law_halving_keeps_the_coverage<F: Fn(u8, u8, u8, u8) -> u8>(
    mean: F,
    prev: Seq<u8>,
    w: int,
    next: Seq<u8>,
)
    requires
        w >= 2,
        w % 2 == 0,
        is_half(mean, prev, w, next),
    ensures
        -2 * ((w / 2) * (w / 2)) <= coverage(prev, w, w) - 4 * coverage(next, w / 2, w / 2) <= (w
            / 2) * (w / 2),
{
    lemma_coverage(mean, prev, w, next, w / 2);
    assert(2 * (w / 2) == w);
}

/// A texel of a level is seen by one texel of the next level and by no other: where two
/// levels of even side differ in the coverage of nothing but row `y`, column `x`, the next
/// levels differ in nothing but row `y / 2`, column `x / 2`.
pub proof fn law_a_texel_is_in_one_block<F: Fn(u8, u8, u8, u8) -> u8>(
    mean: F,
    a: Seq<u8>,
    b: Seq<u8>,
    w: int,
    half_a: Seq<u8>,
    half_b: Seq<u8>,
    y: int,
    x: int,
    j: int,
    i: int,
)
    requires
        w >= 2,
        w % 2 == 0,
        is_half(mean, a, w, half_a),
        is_half(mean, b, w, half_b),
        0 <= y < w,
        0 <= x < w,
        forall|v: int, u: int|
            0 <= v < w && 0 <= u < w && !(v == y && u == x) ==> a[#[trigger] (4 * (v * w + u) + 3)]
                == b[4 * (v * w + u) + 3],
        0 <= j < w / 2,
        0 <= i < w / 2,
        !(j == y / 2 && i == x / 2),
    ensures
        half_a[4 * (j * (w / 2) + i) + 3] == half_b[4 * (j * (w / 2) + i) + 3],
{
    assert(numbers::mip_side(w, 0) == w);
    assert(numbers::mip_side(w, 1) == w / 2);
    assert(averaged(mean, a, w, j, i, 3, texel(half_a, w / 2, j, i, 3)));
    assert(averaged(mean, b, w, j, i, 3, texel(half_b, w / 2, j, i, 3)));
    assert(near(j, w) == 2 * j && far(j, w) == 2 * j + 1);
    assert(near(i, w) == 2 * i && far(i, w) == 2 * i + 1);
    assert(a[4 * ((2 * j) * w + 2 * i) + 3] == b[4 * ((2 * j) * w + 2 * i) + 3]);
    assert(a[4 * ((2 * j) * w + (2 * i + 1)) + 3] == b[4 * ((2 * j) * w + (2 * i + 1)) + 3]);
    assert(a[4 * ((2 * j + 1) * w + 2 * i) + 3] == b[4 * ((2 * j + 1) * w + 2 * i) + 3]);
    assert(a[4 * ((2 * j + 1) * w + (2 * i + 1)) + 3] == b[4 * ((2 * j + 1) * w + (2 * i + 1))
        + 3]);
}

/// Level `m` of a chain is a square of the base's side shifted down by `m`, and each of
/// its texels is made of the block of four above it.
pub proof fn law_a_chain_halves_level_by_level<F: Fn(u8, u8, u8, u8) -> u8>(
    mean: F,
    base: Seq<u8>,
    size: u32,
    levels: int,
    mips: Seq<Seq<u8>>,
    m: u32,
    y: int,
    x: int,
)
    requires
        size >= 1,
        is_chain(mean, base, size as int, levels, mips),
        1 <= m < levels,
        m < 32,
        (size >> m) >= 1,
        0 <= y < size >> m,
        0 <= x < size >> m,
    ensures
        mips.len() == levels,
        mips[0] == base,
        mips[m as int].len() == 4 * ((size >> m) * (size >> m)),
        ({
            let above = mips[m - 1];
            let w = size >> ((m - 1) as u32);
            let n = size >> m;
            &&& forall|c: int|
                0 <= c < 3 ==> call_ensures(
                    mean,
                    (
                        above[4 * ((2 * y) * w + 2 * x) + c],
                        above[4 * ((2 * y) * w + 2 * x + 1) + c],
                        above[4 * ((2 * y + 1) * w + 2 * x) + c],
                        above[4 * ((2 * y + 1) * w + 2 * x + 1) + c],
                    ),
                    #[trigger] mips[m as int][4 * (y * n + x) + c],
                )
            &&& -2 <= above[4 * ((2 * y) * w + 2 * x) + 3] + above[4 * ((2 * y) * w + 2 * x + 1)
                + 3] + above[4 * ((2 * y + 1) * w + 2 * x) + 3] + above[4 * ((2 * y + 1) * w + 2 * x
                + 1) + 3] - 4 * mips[m as int][4 * (y * n + x) + 3] <= 1
        }),
{
    numbers::law_mip_side_is_a_shift(size, m);
    numbers::law_mip_side_is_a_shift(size, (m - 1) as u32);
    let w = size >> ((m - 1) as u32);
    let n = size >> m;
    assert(n == w / 2) by (bit_vector)
        requires
            0 < m < 32,
            w == size >> ((m - 1) as u32),
            n == size >> m,
    ;
    let above = mips[m - 1];
    let next = mips[m as int];
    assert(is_half(mean, above, w as int, next));
    assert forall|c: int| 0 <= c < 3 implies call_ensures(
        mean,
        (
            above[4 * ((2 * y) * w + 2 * x) + c],
            above[4 * ((2 * y) * w + 2 * x + 1) + c],
            above[4 * ((2 * y + 1) * w + 2 * x) + c],
            above[4 * ((2 * y + 1) * w + 2 * x + 1) + c],
        ),
        #[trigger] next[4 * (y * n + x) + c],
    ) by {
        law_a_texel_is_the_mean_of_its_block(mean, above, w as int, next, y, x, c);
    }
    law_a_texel_is_the_mean_of_its_block(mean, above, w as int, next, y, x, 3);
}

} // verus!
