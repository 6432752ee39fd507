use vstd::prelude::*;

verus! {

/// Relies on num_cpus::get: the number of CPUs this process may use, which
/// its documentation says is always at least 1.
#[verifier::external_body]
fn available_cpus() -> (r: usize)
    ensures
        r >= 1,
{
    num_cpus::get()
}

/// The number of chunks the image is split into for `cpus` processors:
/// four per processor, so that uneven chunks still keep every core busy.
pub fn chunk_count(cpus: usize) -> (r: usize)
    requires
        cpus <= usize::MAX / 4,
    ensures
        r == 4 * cpus,
{
    cpus * 4
}

/// Four chunks per processor this process may use (at most a quarter of
/// `usize::MAX` processors are counted).
pub fn default_chunk_count() -> (r: usize)
    ensures
        r >= 4,
        r % 4 == 0,
{
    let cpus = available_cpus();
    let counted = if cpus > usize::MAX / 4 {
        usize::MAX / 4
    } else {
        cpus
    };
    chunk_count(counted)
}

/// The smallest `s` with `s * chunks >= width`.
pub open spec fn ceil_div(width: nat, chunks: nat) -> nat
    recommends
        chunks > 0,
{
    if width % chunks == 0 {
        width / chunks
    } else {
        width / chunks + 1
    }
}

/// Columns per chunk: the width divided by the number of chunks, rounded up.
pub fn chunk_size(width: u32, chunks: u32) -> (r: u32)
    requires
        chunks > 0,
    ensures
        r == ceil_div(width as nat, chunks as nat),
        r * chunks >= width,
        r > 0 ==> (r - 1) * chunks < width,
{
    let q = width / chunks;
    proof {
        let w = width as int;
        let c = chunks as int;
        let qq = q as int;
        assert(w == qq * c + w % c && qq * c <= w) by (nonlinear_arith)
            requires
                qq == w / c,
                c > 0,
                w >= 0,
        ;
        if w % c != 0 {
            assert(qq * 2 <= w) by (nonlinear_arith)
                requires
                    qq * c <= w,
                    c >= 2,
                    qq >= 0,
            ;
        }
    }
    let r = if width % chunks == 0 {
        q
    } else {
        q + 1
    };
    proof {
        let w = width as int;
        let c = chunks as int;
        let qq = q as int;
        let rr = r as int;
        assert(rr * c >= w && (rr > 0 ==> (rr - 1) * c < w)) by (nonlinear_arith)
            requires
                w == qq * c + w % c,
                rr == (if w % c == 0 { qq } else { qq + 1 }),
                0 <= w % c < c,
                c > 0,
        ;
    }
    r
}

/// The first column of chunk `step`.
pub open spec fn chunk_start(step: nat, size: nat, width: nat) -> nat {
    if step * size < width {
        step * size
    } else {
        width
    }
}

/// One past the last column of chunk `step`.
pub open spec fn chunk_end(step: nat, size: nat, width: nat) -> nat {
    chunk_start(step + 1, size, width)
}

/// The columns `[start, end)` that chunk `step` covers: consecutive runs of
/// `size` columns, the last ones cut off at the image's width.
pub fn chunk_columns(step: u32, size: u32, width: u32) -> (r: (u32, u32))
    ensures
        r.0 == chunk_start(step as nat, size as nat, width as nat),
        r.1 == chunk_end(step as nat, size as nat, width as nat),
        r.0 <= r.1 <= width,
{
    proof {
        assert(step as int * size as int <= 0xFFFF_FFFF * 0xFFFF_FFFFint) by (nonlinear_arith)
            requires
                0 <= step <= 0xFFFF_FFFF,
                0 <= size <= 0xFFFF_FFFF,
        ;
    }
    let s = step as u64 * size as u64;
    let e = s + size as u64;
    let start = if s < width as u64 {
        s as u32
    } else {
        width
    };
    let end = if e < width as u64 {
        e as u32
    } else {
        width
    };
    proof {
        assert((step + 1) * size == step * size + size) by (nonlinear_arith);
        assert(step * size >= width ==> (step + 1) * size >= width) by (nonlinear_arith);
    }
    (start, end)
}

/// Where the ray for pixel column `x`, row `y` sits among the camera's rays:
/// the camera emits them column by column, each column top to bottom.
pub fn ray_index(x: u32, y: u32, height: u32) -> (r: usize)
    requires
        y < height,
        (x as int + 1) * height as int <= usize::MAX,
    ensures
        r == x * height + y,
{
    proof {
        assert(x as int * height as int + y < (x as int + 1) * height as int) by (nonlinear_arith)
            requires
                y < height,
        ;
    }
    x as usize * height as usize + y as usize
}

/// `f` gives one answer for each argument, always the same.
pub open spec fn deterministic<A, B, F: Fn(A) -> B>(f: F) -> bool {
    &&& forall|a: A| f.requires((a,))
    &&& forall|a: A, x: B, y: B| f.ensures((a,), x) && f.ensures((a,), y) ==> x == y
}

/// `closer` answers every comparison, always the same way, never puts a
/// value before itself, and chains: `a` before `b` before `c` puts `a`
/// before `c`.
pub open spec fn ordering<D, C: Fn(D, D) -> bool>(closer: C) -> bool {
    &&& forall|a: D, b: D| closer.requires((a, b))
    &&& forall|a: D, b: D, x: bool, y: bool|
        closer.ensures((a, b), x) && closer.ensures((a, b), y) ==> x == y
    &&& forall|a: D| !closer.ensures((a, a), true)
    &&& forall|a: D, b: D, c: D|
        closer.ensures((a, b), true) && closer.ensures((b, c), true) ==> closer.ensures((a, c), true)
}

/// Tests every candidate with `hit` and keeps the nearest hit: `None` when
/// no candidate is hit, else the hit of some candidate that no other
/// candidate's hit is `closer` than. Repeated candidates do no harm.
pub fn nearest_hit<T: Copy, D: Copy, H: Fn(T) -> Option<D>, C: Fn(D, D) -> bool>(
    candidates: &Vec<T>,
    hit: &H,
    closer: &C,
) -> (r: Option<D>)
    requires
        deterministic(*hit),
        ordering(*closer),
    ensures
        r is None <==> forall|j: int, o: Option<D>|
            0 <= j < candidates@.len() && #[trigger] hit.ensures((candidates@[j],), o) ==> o is None,
        r is Some ==> exists|j: int|
            0 <= j < candidates@.len() && #[trigger] hit.ensures((candidates@[j],), r),
        r is Some ==> forall|j: int, e: D|
            0 <= j < candidates@.len() && #[trigger] hit.ensures((candidates@[j],), Some(e))
                ==> !closer.ensures((e, r->Some_0), true),
{
    let mut best: Option<D> = None;
    let mut i: usize = 0;
    while i < candidates.len()
        invariant
            0 <= i <= candidates@.len(),
            deterministic(*hit),
            ordering(*closer),
            best is None <==> forall|j: int, o: Option<D>|
                0 <= j < i && #[trigger] hit.ensures((candidates@[j],), o) ==> o is None,
            best is Some ==> exists|j: int| 0 <= j < i && #[trigger] hit.ensures((candidates@[j],), best),
            best is Some ==> forall|j: int, e: D|
                0 <= j < i && #[trigger] hit.ensures((candidates@[j],), Some(e))
                    ==> !closer.ensures((e, best->Some_0), true),
        decreases candidates@.len() - i,
    {
        let got = hit(candidates[i]);
        let ghost prev = best;
        match got {
            None => {},
            Some(d) => {
                match best {
                    None => {
                        best = Some(d);
                        assert(hit.ensures((candidates@[i as int],), best));
                        assert forall|j: int, e: D|
                            0 <= j < i + 1 && #[trigger] hit.ensures((candidates@[j],), Some(e))
                                implies !closer.ensures((e, d), true) by {
                            if j < i {
                                assert(Some(e) is None);
                            } else {
                                assert(e == d);
                            }
                        }
                    },
                    Some(b) => {
                        if closer(d, b) {
                            best = Some(d);
                            assert(hit.ensures((candidates@[i as int],), best));
                            assert forall|j: int, e: D|
                                0 <= j < i + 1 && #[trigger] hit.ensures((candidates@[j],), Some(e))
                                    implies !closer.ensures((e, d), true) by {
                                if j < i {
                                    assert(!closer.ensures((e, b), true));
                                    if closer.ensures((e, d), true) {
                                        assert(closer.ensures((d, b), true));
                                    }
                                } else {
                                    assert(e == d);
                                }
                            }
                        } else {
                            proof {
                                let j0 = choose|j: int| 0 <= j < i && #[trigger] hit.ensures((candidates@[j],), prev);
                                assert(0 <= j0 < i + 1 && hit.ensures((candidates@[j0],), best));
                            }
                        }
                    },
                }
            },
        }
        assert(hit.ensures((candidates@[i as int],), got));
        proof {
            if best is Some && prev is Some {
                let j0 = choose|j: int| 0 <= j < i && #[trigger] hit.ensures((candidates@[j],), prev);
                assert(0 <= j0 < i + 1);
            }
        }
        i = i + 1;
    }
    best
}

/// The value of a pixel whose ray hits nothing.
pub const BACKGROUND: u8 = 0;

/// The value of a pixel: `BACKGROUND` where the ray hits nothing, else the
/// brightness of the nearest hit, raised to 1 where it would be taken for
/// background.
pub fn pixel_value(hit: Option<u8>) -> (r: u8)
    ensures
        hit is None ==> r == BACKGROUND,
        hit is Some ==> r != BACKGROUND && r == (if hit->Some_0 == 0 { 1 } else { hit->Some_0 }),
{
    match hit {
        None => BACKGROUND,
        Some(level) => if level == 0 {
            1
        } else {
            level
        },
    }
}

/// Why the chunks handed back by the workers do not make an image.
#[derive(Debug, PartialEq, Eq, Structural, Clone, Copy)]
pub enum AssembleError {
    /// There is not one result per chunk.
    WrongCount,
    /// The worker for this chunk failed and handed back nothing.
    WorkerFailed(usize),
    /// The worker for this chunk handed back a wrong number of pixels.
    WrongLength(usize),
}

/// The number of pixels chunk `k` holds: its columns times the height.
pub open spec fn part_len(k: nat, size: nat, width: nat, height: nat) -> nat {
    ((chunk_end(k, size, width) - chunk_start(k, size, width)) * height) as nat
}

/// Chunk `k` came back, with one value per pixel of its columns.
pub open spec fn part_ok(part: Option<Vec<u8>>, k: nat, size: nat, width: nat, height: nat) -> bool {
    match part {
        Some(v) => v@.len() == part_len(k, size, width, height),
        None => false,
    }
}

/// Chunk `k` of `parts` came back whole.
pub open spec fn good_part(parts: Seq<Option<Vec<u8>>>, k: int, size: nat, width: nat, height: nat) -> bool {
    part_ok(parts[k], k as nat, size, width, height)
}

/// The value of pixel `(x, y)`: taken from the chunk that owns column `x`,
/// where the chunk keeps its pixels column by column.
pub open spec fn chunk_pixel(parts: Seq<Option<Vec<u8>>>, size: nat, height: nat, x: nat, y: nat) -> u8 {
    let k = x / size;
    match parts[k as int] {
        Some(v) => v@[((x - k * size) * height + y) as int],
        None => 0,
    }
}

/// Merges the workers' results into one image, row by row: the pixel at
/// column `i % width`, row `i / width` lands at index `i`. Each pixel comes
/// from the chunk that owns its column, so the order in which workers
/// finished does not matter. The first chunk that is missing or has the
/// wrong size makes the whole merge fail.
pub fn assemble(width: u32, height: u32, chunks: u32, parts: &Vec<Option<Vec<u8>>>) -> (r: Result<
    Vec<u8>,
    AssembleError,
>)
    requires
        chunks > 0,
        width as int * height as int <= usize::MAX,
    ensures
        ({
            let size = ceil_div(width as nat, chunks as nat);
            &&& parts@.len() != chunks ==> r == Err::<Vec<u8>, AssembleError>(AssembleError::WrongCount)
            &&& parts@.len() == chunks ==> {
                &&& (forall|k: int|
                    0 <= k < chunks ==> #[trigger] good_part(parts@, k, size, width as nat, height as nat))
                    <==> r.is_ok()
                &&& forall|k: int|
                    0 <= k < chunks ==> (r == Err::<Vec<u8>, AssembleError>(
                        AssembleError::WorkerFailed(k as usize),
                    ) <==> (parts@[k] is None && forall|j: int|
                        0 <= j < k ==> #[trigger] good_part(parts@, j, size, width as nat, height as nat)))
                &&& forall|k: int|
                    0 <= k < chunks ==> (r == Err::<Vec<u8>, AssembleError>(
                        AssembleError::WrongLength(k as usize),
                    ) <==> (parts@[k] is Some && !good_part(parts@, k, size, width as nat, height as nat)
                        && forall|j: int|
                        0 <= j < k ==> #[trigger] good_part(parts@, j, size, width as nat, height as nat)))
            }
            &&& r is Ok ==> {
                &&& r->Ok_0@.len() == width * height
                &&& forall|i: int|
                    0 <= i < width * height ==> #[trigger] r->Ok_0@[i] == chunk_pixel(
                        parts@,
                        size,
                        height as nat,
                        (i % width as int) as nat,
                        (i / width as int) as nat,
                    )
            }
        }),
{
    let size = chunk_size(width, chunks);
    if parts.len() != chunks as usize {
        return Err(AssembleError::WrongCount);
    }
    let ghost sz = size as nat;
    let ghost w = width as nat;
    let ghost h = height as nat;
    let mut k: usize = 0;
    while k < parts.len()
        invariant
            0 <= k <= parts@.len(),
            parts@.len() == chunks,
            size == ceil_div(width as nat, chunks as nat),
            sz == size && w == width && h == height,
            width as int * height as int <= usize::MAX,
            forall|j: int| 0 <= j < k ==> #[trigger] good_part(parts@, j, sz, w, h),
            forall|j: int| 0 <= j < k ==> (#[trigger] parts@[j]) is Some,
        decreases parts@.len() - k,
    {
        let cols = chunk_columns(k as u32, size, width);
        proof {
            assert((cols.1 - cols.0) as int * height as int <= width as int * height as int)
                by (nonlinear_arith)
                requires
                    cols.1 - cols.0 <= width,
                    cols.0 <= cols.1,
            ;
        }
        let expected = (cols.1 - cols.0) as usize * height as usize;
        assert(expected == part_len(k as nat, sz, w, h));
        match &parts[k] {
            None => {
                assert(!good_part(parts@, k as int, sz, w, h));
                return Err(AssembleError::WorkerFailed(k));
            },
            Some(v) => {
                if v.len() != expected {
                    assert(!good_part(parts@, k as int, sz, w, h));
                    return Err(AssembleError::WrongLength(k));
                }
            },
        }
        assert(good_part(parts@, k as int, sz, w, h));
        k = k + 1;
    }
    let mut out: Vec<u8> = Vec::new();
    let mut y: u32 = 0;
    while y < height
        invariant
            parts@.len() == chunks,
            chunks > 0,
            size == ceil_div(width as nat, chunks as nat),
            size * chunks >= width,
            sz == size && w == width && h == height,
            width as int * height as int <= usize::MAX,
            forall|j: int| 0 <= j < chunks ==> #[trigger] good_part(parts@, j, sz, w, h),
            forall|j: int| 0 <= j < chunks ==> (#[trigger] parts@[j]) is Some,
            y <= height,
            out@.len() == y * width,
            forall|i: int|
                0 <= i < out@.len() ==> #[trigger] out@[i] == chunk_pixel(
                    parts@,
                    sz,
                    h,
                    (i % width as int) as nat,
                    (i / width as int) as nat,
                ),
        decreases height - y,
    {
        let mut x: u32 = 0;
        while x < width
            invariant
                parts@.len() == chunks,
                chunks > 0,
                size == ceil_div(width as nat, chunks as nat),
                size * chunks >= width,
                sz == size && w == width && h == height,
                width as int * height as int <= usize::MAX,
                forall|j: int| 0 <= j < chunks ==> #[trigger] good_part(parts@, j, sz, w, h),
                x <= width,
                y < height,
                out@.len() == y * width + x,
                forall|i: int|
                    0 <= i < out@.len() ==> #[trigger] out@[i] == chunk_pixel(
                        parts@,
                        sz,
                        h,
                        (i % width as int) as nat,
                        (i / width as int) as nat,
                    ),
            decreases width - x,
        {
            let k = x / size;
            proof {
                let xi = x as int;
                let si = size as int;
                let ki = k as int;
                assert(ki * si <= xi && xi < ki * si + si && ki < chunks) by (nonlinear_arith)
                    requires
                        ki == xi / si,
                        si > 0,
                        xi >= 0,
                        xi < width,
                        si * chunks >= width,
                ;
                assert(chunk_start(k as nat, sz, w) == k * size);
                assert((ki + 1) * si == ki * si + si) by (nonlinear_arith);
                assert(chunk_end(k as nat, sz, w) > x);
                let len = chunk_end(k as nat, sz, w) - chunk_start(k as nat, sz, w);
                assert((xi - ki * si) * height + y < len * height) by (nonlinear_arith)
                    requires
                        xi - ki * si < len,
                        y < height,
                ;
                assert(len * height <= width as int * height as int) by (nonlinear_arith)
                    requires
                        0 <= len <= width,
                ;
                assert(good_part(parts@, k as int, sz, w, h));
                assert((y as int * width as int + x as int + 1) <= width as int * height as int) by (nonlinear_arith)
                    requires
                        x < width,
                        y < height,
                ;
                vstd::arithmetic::div_mod::lemma_fundamental_div_mod_converse(
                    y * width + x,
                    width as int,
                    y as int,
                    x as int,
                );
            }
            let start = k * size;
            let ghost before = out@;
            match &parts[k as usize] {
                Some(v) => {
                    assert(v@.len() == part_len(k as nat, sz, w, h));
                    assert(((x - start) as int) * (height as int) + (y as int) < v@.len());
                    out.push(v[(x - start) as usize * height as usize + y as usize]);
                },
                None => {
                    out.push(0);
                },
            }
            assert(forall|i: int| 0 <= i < before.len() ==> out@[i] == before[i]);
            x = x + 1;
        }
        assert(out@.len() == (y + 1) * width) by (nonlinear_arith)
            requires
                out@.len() == y * width + width,
        ;
        y = y + 1;
    }
    proof {
        assert(out@.len() == width * height) by (nonlinear_arith)
            requires
                out@.len() == y * width,
                y == height,
        ;
    }
    Ok(out)
}

/// Every column of the image lies in exactly one chunk: chunk `x / size`,
/// where `size` is the width divided by the number of chunks, rounded up.
pub proof fn lemma_chunks_partition(width: nat, chunks: nat, x: nat, k: nat)
    requires
        chunks > 0,
        x < width,
        k < chunks,
    ensures
        ({
            let size = ceil_div(width, chunks);
            size > 0 && (chunk_start(k, size, width) <= x < chunk_end(k, size, width) <==> k == x / size)
        }),
{
    let size = ceil_div(width, chunks);
    let w = width as int;
    let c = chunks as int;
    let s = size as int;
    let ki = k as int;
    let xi = x as int;
    assert(s * c >= w && s > 0) by (nonlinear_arith)
        requires
            s == (if w % c == 0 { w / c } else { w / c + 1 }),
            c > 0,
            w > 0,
    ;
    assert((ki + 1) * s == ki * s + s) by (nonlinear_arith);
    if chunk_start(k, size, width) <= x < chunk_end(k, size, width) {
        assert(ki * s <= xi);
        assert(xi < ki * s + s);
        vstd::arithmetic::div_mod::lemma_fundamental_div_mod_converse(xi, s, ki, xi - ki * s);
    }
    if k == x / size {
        assert(ki * s <= xi && xi < ki * s + s) by (nonlinear_arith)
            requires
                ki == xi / s,
                s > 0,
                xi >= 0,
        ;
    }
}

/// The value that a deterministic per-pixel function gives at `(x, y)`.
pub open spec fn pixel_of<F: Fn(u32, u32) -> u8>(f: F) -> spec_fn(nat, nat) -> u8 {
    |x: nat, y: nat| choose|v: u8| #[trigger] f.ensures((x as u32, y as u32), v)
}

/// `f` gives one value for each pixel, always the same.
pub open spec fn per_pixel<F: Fn(u32, u32) -> u8>(f: F) -> bool {
    &&& forall|x: u32, y: u32| f.requires((x, y))
    &&& forall|x: u32, y: u32, a: u8, b: u8| f.ensures((x, y), a) && f.ensures((x, y), b) ==> a == b
}

/// Chunk `k` came back filled from `value`: one value per pixel of its
/// columns, left to right, each column's pixels top to bottom.
pub open spec fn chunk_filled(
    part: Option<Vec<u8>>,
    k: nat,
    size: nat,
    width: nat,
    height: nat,
    value: spec_fn(nat, nat) -> u8,
) -> bool {
    &&& part is Some
    &&& part->Some_0@.len() == part_len(k, size, width, height)
    &&& forall|cx: nat, cy: nat|
        chunk_start(k, size, width) <= cx < chunk_end(k, size, width) && cy < height
            ==> part->Some_0@[((cx - chunk_start(k, size, width)) * height + cy) as int]
            == #[trigger] value(cx, cy)
}

/// The work of one worker: the values of chunk `step`'s pixels, column by
/// column, each column top to bottom, in the layout that `assemble` reads.
pub fn fill_chunk<F: Fn(u32, u32) -> u8>(step: u32, size: u32, width: u32, height: u32, value: &F) -> (r: Vec<
    u8,
>)
    requires
        per_pixel(*value),
        width as int * height as int <= usize::MAX,
    ensures
        chunk_filled(Some(r), step as nat, size as nat, width as nat, height as nat, pixel_of(*value)),
{
    let (start, end) = chunk_columns(step, size, width);
    let ghost pix = pixel_of(*value);
    let mut out: Vec<u8> = Vec::new();
    let mut x: u32 = start;
    while x < end
        invariant
            per_pixel(*value),
            pix == pixel_of(*value),
            start <= x <= end <= width,
            width as int * height as int <= usize::MAX,
            out@.len() == (x - start) * height,
            forall|cx: nat, cy: nat|
                start <= cx < x && cy < height ==> out@[((cx - start) * height + cy) as int]
                    == #[trigger] pix(cx, cy),
        decreases end - x,
    {
        let mut y: u32 = 0;
        while y < height
            invariant
                per_pixel(*value),
                pix == pixel_of(*value),
                start <= x < end <= width,
                y <= height,
                width as int * height as int <= usize::MAX,
                out@.len() == (x - start) * height + y,
                forall|cx: nat, cy: nat|
                    (start <= cx < x && cy < height || cx == x && cy < y) ==> out@[((cx - start) * height
                        + cy) as int] == #[trigger] pix(cx, cy),
            decreases height - y,
        {
            proof {
                assert((x - start) as int * height as int + y < width as int * height as int)
                    by (nonlinear_arith)
                    requires
                        x - start < width,
                        y < height,
                ;
            }
            let v = value(x, y);
            assert(pix(x as nat, y as nat) == v);
            let ghost before = out@;
            out.push(v);
            proof {
                assert forall|cx: nat, cy: nat|
                    (start <= cx < x && cy < height || cx == x && cy < y + 1) implies out@[((cx - start)
                    * height + cy) as int] == #[trigger] pix(cx, cy) by {
                    let idx = (cx - start) * height + cy;
                    if cx == x && cy == y {
                        assert(idx == before.len());
                    } else {
                        assert(idx < before.len()) by (nonlinear_arith)
                            requires
                                idx == (cx - start) * height + cy,
                                before.len() == (x - start) * height + y,
                                start <= cx <= x,
                                cx < x ==> cy < height,
                                cx == x ==> cy < y,
                        ;
                        assert(out@[idx as int] == before[idx as int]);
                    }
                }
            }
            y = y + 1;
        }
        proof {
            assert((x - start) as int * height as int + height as int == (x + 1 - start) as int
                * height as int) by (nonlinear_arith);
        }
        x = x + 1;
    }
    proof {
        assert forall|cx: nat, cy: nat|
            chunk_start(step as nat, size as nat, width as nat) <= cx < chunk_end(
                step as nat,
                size as nat,
                width as nat,
            ) && cy < height implies out@[((cx - chunk_start(step as nat, size as nat, width as nat))
            * height + cy) as int] == #[trigger] pix(cx, cy) by {
            assert(start <= cx < x);
        }
    }
    out
}

/// When every worker filled its chunk from one per-pixel function, the
/// merge succeeds and the merged image is that function at every pixel:
/// the result depends on the function alone, not on the chunking or on
/// when each worker finished.
pub proof fn lemma_merge_is_pixelwise(
    parts: Seq<Option<Vec<u8>>>,
    width: nat,
    height: nat,
    chunks: nat,
    value: spec_fn(nat, nat) -> u8,
    x: nat,
    y: nat,
)
    requires
        chunks > 0,
        parts.len() == chunks,
        x < width,
        y < height,
        forall|k: nat|
            k < chunks ==> #[trigger] chunk_filled(
                parts[k as int],
                k,
                ceil_div(width, chunks),
                width,
                height,
                value,
            ),
    ensures
        forall|k: int|
            0 <= k < chunks ==> #[trigger] good_part(parts, k, ceil_div(width, chunks), width, height),
        chunk_pixel(parts, ceil_div(width, chunks), height, x, y) == value(x, y),
{
    let size = ceil_div(width, chunks);
    assert forall|k: int| 0 <= k < chunks implies #[trigger] good_part(parts, k, size, width, height) by {
        assert(chunk_filled(parts[k], k as nat, size, width, height, value));
    }
    let k = x / size;
    lemma_chunks_partition(width, chunks, x, 0);
    assert(k < chunks) by {
        let w = width as int;
        let c = chunks as int;
        let s = size as int;
        assert(s * c >= w) by (nonlinear_arith)
            requires
                s == (if w % c == 0 { w / c } else { w / c + 1 }),
                c > 0,
                w > 0,
        ;
        assert(x / size < chunks) by (nonlinear_arith)
            requires
                s * c >= w,
                x < w,
                s > 0,
                s == size,
                c == chunks,
        ;
    }
    lemma_chunks_partition(width, chunks, x, k);
    assert(chunk_start(k, size, width) == k * size);
    assert(chunk_filled(parts[k as int], k, size, width, height, value));
}

} // verus!
