//! Length-prefixed framing: each frame is the payload's length in ASCII
//! decimal, a colon, then exactly that many payload bytes. The reader
//! first consumes up to the colon to learn the length, then takes that
//! many bytes; several frames appended to one buffer come back out one by
//! one, in order.

use vstd::prelude::*;

verus! {

/// The ASCII decimal digits of a number, most significant first.
pub open spec fn dec_rep(n: nat) -> Seq<u8>
    decreases n,
{
    if n < 10 {
        seq![(48 + n) as u8]
    } else {
        dec_rep(n / 10).push((48 + n % 10) as u8)
    }
}

/// The frame of a payload: its length in decimal, a colon, the payload.
pub open spec fn spec_frame(payload: Seq<u8>) -> Seq<u8> {
    dec_rep(payload.len()) + seq![58u8] + payload
}

/// An ASCII decimal digit.
pub open spec fn is_digit(b: u8) -> bool {
    48 <= b <= 57
}

/// Reads digits from `i` into the accumulator until a colon; fails on any
/// other byte, on a missing length, on an unterminated buffer, and on a
/// length that cannot fit the machine word.
pub open spec fn scan_len(buf: Seq<u8>, i: int, acc: int, seen: bool) -> Option<(int, int)>
    decreases buf.len() - i,
{
    if i < 0 || i >= buf.len() {
        None
    } else if buf[i] == 58 {
        if seen {
            Some((acc, i + 1))
        } else {
            None
        }
    } else if is_digit(buf[i]) {
        if acc * 10 + (buf[i] - 48) <= usize::MAX {
            scan_len(buf, i + 1, acc * 10 + (buf[i] - 48), true)
        } else {
            None
        }
    } else {
        None
    }
}

/// What reading one frame at `start` yields: the payload and the position
/// just after it, or nothing when no well-formed frame starts there.
pub open spec fn spec_parse_frame(buf: Seq<u8>, start: int) -> Option<(Seq<u8>, int)> {
    match scan_len(buf, start, 0, false) {
        Some((len, p)) => if p + len <= buf.len() {
            Some((buf.subrange(p, p + len), p + len))
        } else {
            None
        },
        None => None,
    }
}

/// Appends the decimal digits of `n`.
fn push_decimal(out: &mut Vec<u8>, n: usize)
    ensures
        final(out)@ == old(out)@ + dec_rep(n as nat),
    decreases n,
{
    if n < 10 {
        out.push(48 + (n as u8));
        proof {
            assert(final(out)@ =~= old(out)@ + dec_rep(n as nat));
        }
    } else {
        push_decimal(out, n / 10);
        out.push(48 + ((n % 10) as u8));
        proof {
            assert(final(out)@ =~= old(out)@ + dec_rep(n as nat));
        }
    }
}

/// Writes the frame of a payload: decimal length, colon, payload.
pub fn encode_frame(payload: &Vec<u8>) -> (r: Vec<u8>)
    ensures
        r@ == spec_frame(payload@),
{
    let mut out: Vec<u8> = Vec::new();
    push_decimal(&mut out, payload.len());
    out.push(58);
    let n = payload.len();
    let mut i: usize = 0;
    proof {
        assert(out@ =~= dec_rep(payload@.len()) + seq![58u8] + payload@.subrange(0, 0));
    }
    while i < n
        invariant
            i <= n,
            n == payload@.len(),
            out@ == dec_rep(payload@.len()) + seq![58u8] + payload@.subrange(0, i as int),
        decreases n - i,
    {
        out.push(payload[i]);
        proof {
            assert(out@ =~= dec_rep(payload@.len()) + seq![58u8] + payload@.subrange(
                0,
                i as int + 1,
            ));
        }
        i += 1;
    }
    proof {
        assert(payload@.subrange(0, n as int) =~= payload@);
    }
    out
}

/// Reads one frame at `start`, exactly as `spec_parse_frame` says.
pub fn parse_frame(buf: &Vec<u8>, start: usize) -> (r: Option<(Vec<u8>, usize)>)
    ensures
        match spec_parse_frame(buf@, start as int) {
            Some((p, next)) => r matches Some(pr) && pr.0@ == p && pr.1 as int == next,
            None => r is None,
        },
{
    broadcast use vstd::arithmetic::div_mod::lemma_fundamental_div_mod;

    let n = buf.len();
    let mut i: usize = start;
    let mut acc: usize = 0;
    let mut seen: bool = false;
    while i < n
        invariant
            start <= i <= n || (start > n && i == start),
            n == buf@.len(),
            scan_len(buf@, start as int, 0, false) == scan_len(buf@, i as int, acc as int, seen),
        decreases n - i,
    {
        let b = buf[i];
        if b == 58 {
            if !seen {
                return None;
            }
            let p_start = i + 1;
            if acc > n - p_start {
                return None;
            }
            let mut payload: Vec<u8> = Vec::new();
            let mut j: usize = p_start;
            while j < p_start + acc
                invariant
                    p_start <= j <= p_start + acc,
                    p_start + acc <= n == buf@.len(),
                    payload@ == buf@.subrange(p_start as int, j as int),
                decreases p_start + acc - j,
            {
                payload.push(buf[j]);
                proof {
                    assert(payload@ =~= buf@.subrange(p_start as int, j as int + 1));
                }
                j += 1;
            }
            return Some((payload, p_start + acc));
        } else if 48 <= b && b <= 57 {
            let d = (b - 48) as usize;
            let q = usize::MAX / 10;
            let rem = usize::MAX % 10;
            if acc > q || (acc == q && d > rem) {
                proof {
                    assert(usize::MAX == 10 * (usize::MAX as int / 10) + usize::MAX as int % 10);
                    assert(acc * 10 + d > usize::MAX);
                }
                return None;
            }
            proof {
                assert(usize::MAX == 10 * (usize::MAX as int / 10) + usize::MAX as int % 10);
                assert(acc * 10 + d <= usize::MAX);
            }
            acc = acc * 10 + d;
            seen = true;
        } else {
            return None;
        }
        i += 1;
    }
    None
}

/// The value the scanner accumulates over a run of digits.
pub open spec fn val_from(acc: int, ds: Seq<u8>) -> int
    decreases ds.len(),
{
    if ds.len() == 0 {
        acc
    } else {
        val_from(acc * 10 + (ds.first() - 48), ds.drop_first())
    }
}

proof fn lemma_val_from_ge(acc: int, ds: Seq<u8>)
    requires
        0 <= acc,
        forall|k: int| 0 <= k < ds.len() ==> is_digit(#[trigger] ds[k]),
    ensures
        val_from(acc, ds) >= acc,
    decreases ds.len(),
{
    if ds.len() > 0 {
        assert(is_digit(ds[0]));
        let d = ds.drop_first();
        assert(forall|k: int| 0 <= k < d.len() ==> is_digit(#[trigger] d[k]));
        lemma_val_from_ge(acc * 10 + (ds.first() - 48), d);
    }
}

proof fn lemma_val_from_push(acc: int, ds: Seq<u8>, x: u8)
    ensures
        val_from(acc, ds.push(x)) == val_from(acc, ds) * 10 + (x - 48),
    decreases ds.len(),
{
    if ds.len() == 0 {
        let p = ds.push(x);
        assert(p.first() == x);
        assert(p.drop_first() =~= Seq::<u8>::empty());
        assert(val_from(acc, p) == val_from(acc * 10 + (x - 48), p.drop_first()));
        assert(val_from(acc * 10 + (x - 48), Seq::<u8>::empty()) == acc * 10 + (x - 48));
    } else {
        let acc2 = acc * 10 + (ds.first() - 48);
        assert(ds.push(x).first() == ds.first());
        assert(ds.push(x).drop_first() =~= ds.drop_first().push(x));
        assert(val_from(acc, ds.push(x)) == val_from(acc2, ds.drop_first().push(x)));
        assert(val_from(acc, ds) == val_from(acc2, ds.drop_first()));
        lemma_val_from_push(acc2, ds.drop_first(), x);
    }
}

/// The decimal digits of `n` are digits and read back as `n`.
proof fn lemma_dec_rep_value(n: nat)
    ensures
        forall|k: int| 0 <= k < dec_rep(n).len() ==> is_digit(#[trigger] dec_rep(n)[k]),
        val_from(0, dec_rep(n)) == n,
        dec_rep(n).len() >= 1,
    decreases n,
{
    if n < 10 {
        let ds = dec_rep(n);
        assert(ds =~= seq![(48 + n) as u8]);
        assert(ds.first() == (48 + n) as u8);
        assert(ds.drop_first() =~= Seq::<u8>::empty());
        assert(val_from(0, ds) == val_from(0 * 10 + (ds.first() - 48), ds.drop_first()));
        assert(val_from((48 + n) as u8 - 48, Seq::<u8>::empty()) == n);
        assert(val_from(0, dec_rep(n)) == n);
    } else {
        lemma_dec_rep_value(n / 10);
        let pre = dec_rep(n / 10);
        let x = (48 + n % 10) as u8;
        assert(dec_rep(n) == pre.push(x));
        lemma_val_from_push(0, pre, x);
        assert(val_from(0, dec_rep(n)) == (n / 10) * 10 + n % 10);
        assert((n / 10) * 10 + n % 10 == n) by {
            vstd::arithmetic::div_mod::lemma_fundamental_div_mod(n as int, 10);
        }
        assert forall|k: int| 0 <= k < dec_rep(n).len() implies is_digit(
            #[trigger] dec_rep(n)[k],
        ) by {
            if k < pre.len() {
                assert(dec_rep(n)[k] == pre[k]);
            } else {
                assert(dec_rep(n)[k] == x);
            }
        }
    }
}

/// Scanning a run of digits up to a colon accumulates their value.
proof fn lemma_scan_region(buf: Seq<u8>, i: int, j: int, acc: int, seen: bool)
    requires
        0 <= i <= j < buf.len(),
        forall|k: int| i <= k < j ==> is_digit(#[trigger] buf[k]),
        buf[j] == 58,
        0 <= acc,
        val_from(acc, buf.subrange(i, j)) <= usize::MAX,
        seen || j > i,
    ensures
        scan_len(buf, i, acc, seen) == Some((val_from(acc, buf.subrange(i, j)), j + 1)),
    decreases j - i,
{
    if i == j {
        assert(buf.subrange(i, j) =~= Seq::<u8>::empty());
    } else {
        let ds = buf.subrange(i, j);
        assert(ds.first() == buf[i]);
        assert(ds.drop_first() =~= buf.subrange(i + 1, j));
        assert(is_digit(buf[i]));
        assert(!(buf[i] == 58));
        let acc2 = acc * 10 + (buf[i] - 48);
        assert(val_from(acc, ds) == val_from(acc2, buf.subrange(i + 1, j)));
        assert(forall|k: int|
            0 <= k < buf.subrange(i + 1, j).len() ==> is_digit(
                #[trigger] buf.subrange(i + 1, j)[k],
            ));
        lemma_val_from_ge(acc2, buf.subrange(i + 1, j));
        assert(acc2 <= usize::MAX);
        lemma_scan_region(buf, i + 1, j, acc2, true);
    }
}

/// Reading one frame out of a buffer that starts with that frame yields
/// the frame's payload and the position where what follows begins:
/// framing is inverse to parsing, frame by frame.
pub proof fn lemma_frame_round_trip(payload: Seq<u8>, rest: Seq<u8>)
    requires
        payload.len() <= usize::MAX,
    ensures
        spec_parse_frame(spec_frame(payload) + rest, 0) == Some(
            (payload, spec_frame(payload).len() as int),
        ),
{
    let buf = spec_frame(payload) + rest;
    let dl = dec_rep(payload.len()).len() as int;
    lemma_dec_rep_value(payload.len());
    assert(buf.subrange(0, dl) =~= dec_rep(payload.len()));
    assert(buf[dl] == 58);
    assert forall|k: int| 0 <= k < dl implies is_digit(#[trigger] buf[k]) by {
        assert(buf[k] == dec_rep(payload.len())[k]);
    }
    assert(val_from(0, buf.subrange(0, dl)) == payload.len());
    lemma_scan_region(buf, 0, dl, 0, false);
    assert(scan_len(buf, 0, 0, false) == Some((payload.len() as int, dl + 1)));
    assert(buf.subrange(dl + 1, dl + 1 + payload.len()) =~= payload);
}

/// The concatenation of the frames of several payloads.
pub open spec fn frames_concat(ps: Seq<Seq<u8>>) -> Seq<u8>
    decreases ps.len(),
{
    if ps.len() == 0 {
        Seq::empty()
    } else {
        spec_frame(ps.first()) + frames_concat(ps.drop_first())
    }
}

/// What reading frames until the buffer's end yields, starting at
/// `start`: every payload in order, or nothing when a frame is broken.
pub open spec fn spec_parse_all(buf: Seq<u8>, start: int) -> Option<Seq<Seq<u8>>>
    decreases buf.len() - start,
{
    if start == buf.len() {
        Some(Seq::empty())
    } else {
        match spec_parse_frame(buf, start) {
            Some((p, next)) => if start < next <= buf.len() {
                match spec_parse_all(buf, next) {
                    Some(rest) => Some(seq![p] + rest),
                    None => None,
                }
            } else {
                None
            },
            None => None,
        }
    }
}

/// A successful scan ends past its start and within the buffer, with a
/// value the machine word holds.
proof fn lemma_scan_bounds(buf: Seq<u8>, i: int, acc: int, seen: bool)
    requires
        0 <= acc <= usize::MAX,
    ensures
        match scan_len(buf, i, acc, seen) {
            Some((v, p)) => i < p <= buf.len() && 0 <= v <= usize::MAX,
            None => true,
        },
    decreases buf.len() - i,
{
    if 0 <= i && i < buf.len() {
        if buf[i] == 58 {
        } else if is_digit(buf[i]) {
            if acc * 10 + (buf[i] - 48) <= usize::MAX {
                lemma_scan_bounds(buf, i + 1, acc * 10 + (buf[i] - 48), true);
            }
        }
    }
}

/// The byte rows of a row of buffers.
pub open spec fn byte_views_of(bs: Seq<Vec<u8>>) -> Seq<Seq<u8>> {
    Seq::new(bs.len(), |i: int| bs[i]@)
}

/// Reads frames until the buffer's end, exactly as `spec_parse_all`
/// says: every payload in order, or nothing when a frame is broken.
pub fn parse_all_frames(buf: &Vec<u8>) -> (r: Option<Vec<Vec<u8>>>)
    ensures
        match spec_parse_all(buf@, 0) {
            Some(ps) => r matches Some(v) && byte_views_of(v@) == ps,
            None => r is None,
        },
{
    let n = buf.len();
    let mut out: Vec<Vec<u8>> = Vec::new();
    let mut at: usize = 0;
    proof {
        assert(byte_views_of(out@) =~= Seq::<Seq<u8>>::empty());
    }
    while at < n
        invariant
            at <= n,
            n == buf@.len(),
            (match spec_parse_all(buf@, at as int) {
                Some(rest) => spec_parse_all(buf@, 0) == Some(byte_views_of(out@) + rest),
                None => spec_parse_all(buf@, 0) is None,
            }),
        decreases n - at,
    {
        match parse_frame(buf, at) {
            Some((payload, next)) => {
                if at < next && next <= n {
                    let ghost out_pre = out@;
                    let ghost pv = payload@;
                    out.push(payload);
                    proof {
                        assert(byte_views_of(out@) =~= byte_views_of(out_pre).push(pv));
                        assert forall|rest: Seq<Seq<u8>>| true implies byte_views_of(out_pre) + (
                        seq![pv] + rest) =~= byte_views_of(out@) + rest by {}
                    }
                    at = next;
                } else {
                    return None;
                }
            },
            None => {
                return None;
            },
        }
    }
    proof {
        assert(byte_views_of(out@) + Seq::<Seq<u8>>::empty() =~= byte_views_of(out@));
    }
    Some(out)
}

/// Parsing at an offset sees exactly the suffix: the scanner and the
/// payload both live in `buf.subrange(start, ..)`.
proof fn lemma_parse_frame_shift(pre: Seq<u8>, suf: Seq<u8>, i: int, acc: int, seen: bool)
    requires
        0 <= i <= suf.len(),
    ensures
        scan_len(pre + suf, pre.len() + i, acc, seen) == match scan_len(suf, i, acc, seen) {
            Some((v, p)) => Some((v, pre.len() + p)),
            None => None,
        },
    decreases suf.len() - i,
{
    let buf = pre + suf;
    if i == suf.len() {
    } else {
        assert(buf[pre.len() + i] == suf[i]);
        if suf[i] == 58 {
        } else if is_digit(suf[i]) {
            if acc * 10 + (suf[i] - 48) <= usize::MAX {
                lemma_parse_frame_shift(pre, suf, i + 1, acc * 10 + (suf[i] - 48), true);
            }
        }
    }
}

/// Feeding the concatenation of any row of framed payloads to the reader
/// yields each original payload, in order.
pub proof fn lemma_frames_in_order(ps: Seq<Seq<u8>>)
    requires
        forall|k: int| 0 <= k < ps.len() ==> (#[trigger] ps[k]).len() <= usize::MAX,
    ensures
        spec_parse_all(frames_concat(ps), 0) == Some(ps),
    decreases ps.len(),
{
    if ps.len() == 0 {
    } else {
        let p0 = ps.first();
        let rest = ps.drop_first();
        let buf = frames_concat(ps);
        let tail = frames_concat(rest);
        assert(buf == spec_frame(p0) + tail);
        assert(dec_rep(p0.len()).len() >= 1) by {
            lemma_dec_rep_value(p0.len());
        }
        lemma_frame_round_trip(p0, tail);
        let next = spec_frame(p0).len() as int;
        assert(forall|k: int| 0 <= k < rest.len() ==> (#[trigger] rest[k]).len() <= usize::MAX);
        lemma_frames_in_order(rest);
        // parsing after the first frame behaves as parsing the tail alone
        lemma_parse_all_shift(spec_frame(p0), tail, 0);
        assert(spec_parse_all(buf, next) == Some(rest));
        assert(seq![p0] + rest =~= ps);
    }
}

/// Parsing everything from an offset behind a prefix equals parsing the
/// suffix alone.
proof fn lemma_parse_all_shift(pre: Seq<u8>, suf: Seq<u8>, i: int)
    requires
        0 <= i <= suf.len(),
    ensures
        spec_parse_all(pre + suf, pre.len() + i) == spec_parse_all(suf, i),
    decreases suf.len() - i,
{
    let buf = pre + suf;
    if i == suf.len() {
    } else {
        lemma_parse_frame_shift(pre, suf, i, 0, false);
        lemma_scan_bounds(suf, i, 0, false);
        match scan_len(suf, i, 0, false) {
            Some((v, p)) => {
                if p + v <= suf.len() {
                    assert(buf.subrange(pre.len() + p, pre.len() + p + v) =~= suf.subrange(
                        p,
                        p + v,
                    ));
                    assert(spec_parse_frame(buf, pre.len() + i) == Some(
                        (suf.subrange(p, p + v), pre.len() + p + v),
                    ));
                    assert(spec_parse_frame(suf, i) == Some((suf.subrange(p, p + v), p + v)));
                    if i < p + v <= suf.len() {
                        lemma_parse_all_shift(pre, suf, p + v);
                    }
                } else {
                    assert(spec_parse_frame(buf, pre.len() + i) is None);
                    assert(spec_parse_frame(suf, i) is None);
                }
            },
            None => {
                assert(spec_parse_frame(buf, pre.len() + i) is None);
                assert(spec_parse_frame(suf, i) is None);
            },
        }
    }
}

} // verus!
