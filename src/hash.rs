//! The name hash of v10X archives.
use vstd::prelude::*;

verus! {

/// One byte of a name as the hash sees it: ASCII lowercase, `/` read as `\`.
pub open spec fn norm_byte(c: u8) -> u8 {
    if c == 47 {
        92
    } else if 65 <= c <= 90 {
        (c + 32) as u8
    } else {
        c
    }
}

pub open spec fn normalize(s: Seq<u8>) -> Seq<u8> {
    s.map_values(|c: u8| norm_byte(c))
}

/// The index of the last `.` among the first `n` bytes, or -1.
pub open spec fn last_dot(s: Seq<u8>, n: int) -> int
    decreases n,
{
    if n <= 0 {
        -1
    } else if s[n - 1] == 46 {
        n - 1
    } else {
        last_dot(s, n - 1)
    }
}

proof fn lemma_last_dot_bounds(s: Seq<u8>, n: int)
    requires
        0 <= n <= s.len(),
    ensures
        -1 <= last_dot(s, n) < n,
    decreases n,
{
    if n > 0 && s[n - 1] != 46 {
        lemma_last_dot_bounds(s, n - 1);
    }
}

/// The name without its extension.
pub open spec fn stem(s: Seq<u8>) -> Seq<u8> {
    let d = last_dot(s, s.len() as int);
    if d >= 0 { s.subrange(0, d) } else { s }
}

/// The extension, from the last `.` on; empty where there is no `.`.
pub open spec fn ext(s: Seq<u8>) -> Seq<u8> {
    let d = last_dot(s, s.len() as int);
    if d >= 0 { s.subrange(d, s.len() as int) } else { Seq::empty() }
}

/// The rolling polynomial `h = h * 0x1003F + b` over `s`, modulo 2^32.
pub open spec fn roll(s: Seq<u8>) -> u32
    decreases s.len(),
{
    if s.len() == 0 {
        0
    } else {
        ((roll(s.drop_last()) as int * 0x1003F + s.last() as int) % 0x1_0000_0000) as u32
    }
}

/// The bits that a known extension adds to the low word.
pub open spec fn ext_code(e: Seq<u8>) -> u32 {
    if e == seq![46u8, 107, 102] {
        0x80
    } else if e == seq![46u8, 110, 105, 102] {
        0x8000
    } else if e == seq![46u8, 100, 100, 115] {
        0x8080
    } else if e == seq![46u8, 119, 97, 118] {
        0x8000_0000
    } else {
        0
    }
}

/// The low word: last byte, second-to-last byte, length and first byte of the stem.
pub open spec fn hash_low(st: Seq<u8>) -> u32 {
    let n = st.len();
    if n == 0 {
        0
    } else {
        (st[n - 1] as u32) | ((if n > 2 { st[n - 2] } else { 0u8 }) as u32) << 8 | ((n as u32) << 16)
            | ((st[0] as u32) << 24)
    }
}

/// The inner bytes of the stem: all but the first and the last two.
pub open spec fn stem_inner(st: Seq<u8>) -> Seq<u8> {
    if st.len() > 3 { st.subrange(1, st.len() - 2) } else { Seq::empty() }
}

/// The hash of a name that is already normalized.
#[verifier::opaque]
pub open spec fn hash_normalized(s: Seq<u8>) -> u64 {
    let st = stem(s);
    let e = ext(s);
    let low = hash_low(st) | ext_code(e);
    let high = ((roll(stem_inner(st)) as int + roll(e) as int) % 0x1_0000_0000) as u32;
    ((high as u64) << 32) | (low as u64)
}

pub open spec fn hash_v10x_spec(s: Seq<u8>) -> u64 {
    hash_normalized(normalize(s))
}

/// Two names that agree byte for byte up to case and path separator hash alike.
pub proof fn lemma_hash_ignores_case_and_separator(s: Seq<u8>, t: Seq<u8>)
    requires
        s.len() == t.len(),
        forall|i: int| 0 <= i < s.len() ==> norm_byte(s[i]) == norm_byte(t[i]),
    ensures
        hash_v10x_spec(s) == hash_v10x_spec(t),
{
    assert(normalize(s) =~= normalize(t));
}

/// Hashing a name that was normalized already gives the same hash.
pub proof fn lemma_hash_of_normalized(s: Seq<u8>)
    ensures
        hash_v10x_spec(normalize(s)) == hash_v10x_spec(s),
{
    assert forall|i: int| 0 <= i < s.len() implies norm_byte(norm_byte(s[i])) == norm_byte(s[i]) by {}
    assert(normalize(normalize(s)) =~= normalize(s));
}

/// `s` with ASCII capitals lowered and `/` turned into `\`.
pub fn normalize_name(s: &[u8]) -> (r: Vec<u8>)
    ensures
        r@ == normalize(s@),
{
    let mut r: Vec<u8> = Vec::new();
    let mut i: usize = 0;
    while i < s.len()
        invariant
            i <= s@.len(),
            r@ == normalize(s@.subrange(0, i as int)),
        decreases s@.len() - i,
    {
        let c = s[i];
        let d = if c == 47 {
            92u8
        } else if 65 <= c && c <= 90 {
            c + 32
        } else {
            c
        };
        r.push(d);
        i = i + 1;
        assert(r@ =~= normalize(s@.subrange(0, i as int)));
    }
    assert(s@.subrange(0, s@.len() as int) =~= s@);
    r
}

fn find_last_dot(s: &[u8]) -> (r: Option<usize>)
    ensures
        match r {
            Some(d) => last_dot(s@, s@.len() as int) == d as int,
            None => last_dot(s@, s@.len() as int) == -1,
        },
{
    let mut n: usize = s.len();
    while n > 0
        invariant
            n <= s@.len(),
            last_dot(s@, s@.len() as int) == last_dot(s@, n as int),
        decreases n,
    {
        if s[n - 1] == 46 {
            return Some(n - 1);
        }
        n = n - 1;
    }
    None
}

fn roll_range(s: &[u8], from: usize, to: usize) -> (r: u32)
    requires
        from <= to <= s@.len(),
    ensures
        r == roll(s@.subrange(from as int, to as int)),
{
    let mut h: u32 = 0;
    let mut i: usize = from;
    while i < to
        invariant
            from <= i <= to <= s@.len(),
            h == roll(s@.subrange(from as int, i as int)),
        decreases to - i,
    {
        assert(s@.subrange(from as int, i + 1).drop_last() =~= s@.subrange(from as int, i as int));
        assert((h as u64) * 0x1003F <= 0xFFFF_FFFFu64 * 0x1003F) by (nonlinear_arith)
            requires
                h <= 0xFFFF_FFFFu32,
        ;
        h = (((h as u64) * 0x1003F + s[i] as u64) % 0x1_0000_0000) as u32;
        i = i + 1;
    }
    h
}

fn ext_code_of(e: &[u8]) -> (r: u32)
    ensures
        r == ext_code(e@),
{
    if e.len() == 3 && e[0] == 46 && e[1] == 107 && e[2] == 102 {
        assert(e@ =~= seq![46u8, 107, 102]);
        0x80
    } else if e.len() == 4 && e[0] == 46 && e[1] == 110 && e[2] == 105 && e[3] == 102 {
        assert(e@ =~= seq![46u8, 110, 105, 102]);
        0x8000
    } else if e.len() == 4 && e[0] == 46 && e[1] == 100 && e[2] == 100 && e[3] == 115 {
        assert(e@ =~= seq![46u8, 100, 100, 115]);
        0x8080
    } else if e.len() == 4 && e[0] == 46 && e[1] == 119 && e[2] == 97 && e[3] == 118 {
        assert(e@ =~= seq![46u8, 119, 97, 118]);
        0x8000_0000
    } else {
        proof {
            let k = seq![46u8, 107, 102];
            let n = seq![46u8, 110, 105, 102];
            let d = seq![46u8, 100, 100, 115];
            let w = seq![46u8, 119, 97, 118];
            assert(e@ != k) by {
                if e@ == k { assert(e@[0] == 46 && e@[1] == 107 && e@[2] == 102); }
            }
            assert(e@ != n) by {
                if e@ == n { assert(e@[0] == 46 && e@[1] == 110 && e@[2] == 105 && e@[3] == 102); }
            }
            assert(e@ != d) by {
                if e@ == d { assert(e@[0] == 46 && e@[1] == 100 && e@[2] == 100 && e@[3] == 115); }
            }
            assert(e@ != w) by {
                if e@ == w { assert(e@[0] == 46 && e@[1] == 119 && e@[2] == 97 && e@[3] == 118); }
            }
        }
        0
    }
}

/// The hash that identifies a file or directory name in a v10X archive.
pub fn hash_v10x(name: &[u8]) -> (r: u64)
    ensures
        r == hash_v10x_spec(name@),
{
    proof {
        reveal(hash_normalized);
    }
    let s = normalize_name(name);
    let sl = s.as_slice();
    let (st_end, ext_start) = match find_last_dot(sl) {
        Some(d) => (d, d),
        None => (sl.len(), sl.len()),
    };
    proof {
        lemma_last_dot_bounds(s@, s@.len() as int);
        assert(stem(s@) =~= s@.subrange(0, st_end as int));
        assert(ext(s@) =~= s@.subrange(ext_start as int, s@.len() as int));
    }
    let e = crate::strings::copy_range(sl, ext_start, sl.len());
    let n = st_end;
    let low = if n == 0 {
        0u32
    } else {
        let second: u8 = if n > 2 { sl[n - 2] } else { 0u8 };
        (sl[n - 1] as u32) | (second as u32) << 8 | ((n as u32) << 16) | ((sl[0] as u32) << 24)
    };
    let inner = if n > 3 { roll_range(sl, 1, n - 2) } else { 0u32 };
    proof {
        let st = s@.subrange(0, st_end as int);
        if n > 3 {
            assert(stem_inner(st) =~= s@.subrange(1, n - 2));
        } else {
            assert(stem_inner(st) =~= Seq::<u8>::empty());
        }
        assert(s@.subrange(ext_start as int, sl@.len() as int) =~= e@);
    }
    let er = roll_range(sl, ext_start, sl.len());
    let code = ext_code_of(e.as_slice());
    let low = low | code;
    let high = (((inner as u64) + (er as u64)) % 0x1_0000_0000) as u32;
    ((high as u64) << 32) | (low as u64)
}

} // verus!

verus! {

/// `x` rotated right by `n` bits, for `n < 32`.
pub open spec fn rotr(x: u32, n: u32) -> u32 {
    if n == 0 {
        x
    } else {
        (x >> n) | (x << ((32 - n) as u32))
    }
}

/// The shift that byte `i` of a half gets: 0, 8, 16, 24, then round again.
pub open spec fn v001_shift(i: int) -> u32 {
    ((8 * i) % 32) as u32
}

/// The low word of the v001 hash over the first `k` bytes: each byte shifted into place and XORed.
pub open spec fn v001_low(s: Seq<u8>, k: int) -> u32
    decreases k,
{
    if k <= 0 {
        0
    } else {
        v001_low(s, k - 1) ^ ((s[k - 1] as u32) << v001_shift(k - 1))
    }
}

/// The high word of the v001 hash over bytes `from..k`: each byte shifted
/// into place, XORed in, then the sum rotated right by the shifted byte's low five bits.
pub open spec fn v001_high(s: Seq<u8>, from: int, k: int) -> u32
    decreases k - from,
{
    if k <= from {
        0
    } else {
        let t = (s[k - 1] as u32) << v001_shift(k - 1 - from);
        let x = v001_high(s, from, k - 1) ^ t;
        rotr(x, t & 0x1f)
    }
}

pub open spec fn hash_v001_spec(name: Seq<u8>) -> u64 {
    let s = normalize(name);
    let l = s.len() / 2;
    ((v001_high(s, l as int, s.len() as int) as u64) << 32) | (v001_low(s, l as int) as u64)
}

/// The hash that identifies a file name in a v001 archive: the first half of
/// the name XORed into the low word, the second half rolled into the high word.
pub fn hash_v001(name: &[u8]) -> (r: u64)
    ensures
        r == hash_v001_spec(name@),
{
    let s = normalize_name(name);
    let l = s.len() / 2;
    let mut low: u32 = 0;
    let mut i: usize = 0;
    while i < l
        invariant
            l <= s@.len(),
            i <= l,
            low == v001_low(s@, i as int),
        decreases l - i,
    {
        let shift = ((i % 4) * 8) as u32;
        assert(shift == v001_shift(i as int));
        low = low ^ ((s[i] as u32) << shift);
        i = i + 1;
    }
    let mut high: u32 = 0;
    let mut k: usize = l;
    while k < s.len()
        invariant
            l <= k <= s@.len(),
            high == v001_high(s@, l as int, k as int),
        decreases s@.len() - k,
    {
        let shift = (((k - l) % 4) * 8) as u32;
        assert(shift == v001_shift(k - l));
        let t = (s[k] as u32) << shift;
        let x = high ^ t;
        let n = t & 0x1f;
        assert(n < 32) by (bit_vector)
            requires
                n == t & 0x1f,
        ;
        high = if n == 0 { x } else { (x >> n) | (x << (32 - n)) };
        k = k + 1;
    }
    ((high as u64) << 32) | (low as u64)
}

} // verus!
