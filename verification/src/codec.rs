//! The JSON encoding of the animation model, and its inverse.
//!
//! The document shape is fixed:
//! `{"dimensions":[w,h],"length":n,"frames":[{"delay_ratio":[a,b],"pixels":[[r,g,b],..]},..]}`
//! with no whitespace and numbers in plain decimal. [`json_of`] is the
//! mathematical statement of that encoding; the serializer produces exactly
//! it, and the deserializer accepts exactly the encodings of well-formed
//! models (with at least one pixel per frame, so that the channel mode can be
//! read back from the sample arity).

use vstd::prelude::*;

use crate::model::ChannelMode;
use crate::model::channel_count;
use crate::model::DecodedFrame;
use crate::model::FrameModel;
use crate::model::ImageModel;
use crate::model::RgbaImageData;

verus! {

/// The decimal digits of `n`, most significant first, no leading zeros.
pub open spec fn dec(n: nat) -> Seq<u8>
    decreases n,
{
    if n < 10 {
        seq![(48 + n) as u8]
    } else {
        dec(n / 10).push((48 + (n % 10)) as u8)
    }
}

/// The given byte sequences, joined with a comma between neighbours.
pub open spec fn join_comma(items: Seq<Seq<u8>>) -> Seq<u8>
    decreases items.len(),
{
    if items.len() == 0 {
        Seq::empty()
    } else if items.len() == 1 {
        items[0]
    } else {
        items[0] + seq![44] + join_comma(items.drop_first())
    }
}

/// `{"dimensions":[`
pub open spec fn lit_head() -> Seq<u8> {
    seq![123, 34, 100, 105, 109, 101, 110, 115, 105, 111, 110, 115, 34, 58, 91]
}

/// `,"length":`
pub open spec fn lit_length() -> Seq<u8> {
    seq![44, 34, 108, 101, 110, 103, 116, 104, 34, 58]
}

/// `,"frames":[`
pub open spec fn lit_frames() -> Seq<u8> {
    seq![44, 34, 102, 114, 97, 109, 101, 115, 34, 58, 91]
}

/// `{"delay_ratio":[`
pub open spec fn lit_delay() -> Seq<u8> {
    seq![123, 34, 100, 101, 108, 97, 121, 95, 114, 97, 116, 105, 111, 34, 58, 91]
}

/// `],"pixels":[`
pub open spec fn lit_pixels() -> Seq<u8> {
    seq![93, 44, 34, 112, 105, 120, 101, 108, 115, 34, 58, 91]
}

/// One pixel: its channel values in brackets, comma-separated.
pub open spec fn ser_pixel(p: Seq<u8>) -> Seq<u8> {
    seq![91] + join_comma(p.map(|i: int, c: u8| dec(c as nat))) + seq![93]
}

/// One frame object: its delay ratio and its pixel list.
pub open spec fn ser_frame(f: FrameModel) -> Seq<u8> {
    lit_delay() + dec(f.delay_ratio.0 as nat) + seq![44] + dec(f.delay_ratio.1 as nat)
        + lit_pixels() + join_comma(f.pixels.map(|i: int, p: Seq<u8>| ser_pixel(p))) + seq![93, 125]
}

/// The whole document.
pub open spec fn json_of(m: ImageModel) -> Seq<u8> {
    lit_head() + dec(m.dimensions.0 as nat) + seq![44] + dec(m.dimensions.1 as nat)
        + seq![93] + lit_length() + dec(m.length as nat) + lit_frames() + join_comma(
        m.frames.map(|i: int, f: FrameModel| ser_frame(f)),
    ) + seq![93, 125]
}

/// Joining after appending one more item: a comma is inserted exactly when
/// something was already there.
proof fn lemma_join_push(items: Seq<Seq<u8>>, x: Seq<u8>)
    ensures
        join_comma(items.push(x)) == if items.len() == 0 {
            x
        } else {
            join_comma(items) + seq![44] + x
        },
    decreases items.len(),
{
    if items.len() == 0 {
        assert(items.push(x).len() == 1);
        assert(items.push(x)[0] == x);
    } else if items.len() == 1 {
        assert(items.push(x).drop_first() =~= seq![x]);
        assert(join_comma(seq![x]) == x);
        assert(join_comma(items.push(x)) == items[0] + seq![44] + x);
    } else {
        assert(items.push(x).drop_first() =~= items.drop_first().push(x));
        lemma_join_push(items.drop_first(), x);
    }
}

/// Appends the decimal digits of `n`.
fn push_u32(out: &mut Vec<u8>, n: u32)
    ensures
        final(out)@ == old(out)@ + dec(n as nat),
    decreases n,
{
    if n < 10 {
        out.push(48 + (n as u8));
        proof {
            assert(out@ =~= old(out)@ + dec(n as nat));
        }
    } else {
        push_u32(out, n / 10);
        out.push(48 + ((n % 10) as u8));
        proof {
            assert(out@ =~= old(out)@ + dec(n as nat));
        }
    }
}

/// Appends one pixel's sample: `[c0,c1,..]`.
fn push_pixel(out: &mut Vec<u8>, p: &Vec<u8>)
    ensures
        final(out)@ == old(out)@ + ser_pixel(p@),
{
    let ghost items = p@.map(|i: int, c: u8| dec(c as nat));
    out.push(91);
    let mut k: usize = 0;
    while k < p.len()
        invariant
            items == p@.map(|i: int, c: u8| dec(c as nat)),
            0 <= k <= p@.len(),
            out@ == old(out)@ + seq![91] + join_comma(items.take(k as int)),
        decreases p@.len() - k,
    {
        if k > 0 {
            out.push(44);
        }
        push_u32(out, p[k] as u32);
        k = k + 1;
        proof {
            assert(items.take(k as int) =~= items.take(k as int - 1).push(items[k as int - 1]));
            lemma_join_push(items.take(k as int - 1), items[k as int - 1]);
            assert(items[k as int - 1] == dec(p@[k as int - 1] as nat));
            assert(out@ =~= old(out)@ + seq![91] + join_comma(items.take(k as int)));
        }
    }
    out.push(93);
    proof {
        assert(items.take(k as int) =~= items);
        assert(out@ =~= old(out)@ + ser_pixel(p@));
    }
}

/// Appends one frame object.
#[verifier::rlimit(30)]
fn push_frame(out: &mut Vec<u8>, f: &DecodedFrame)
    ensures
        final(out)@ == old(out)@ + ser_frame(f@),
{
    out.push(123);
    out.push(34);
    out.push(100);
    out.push(101);
    out.push(108);
    out.push(97);
    out.push(121);
    out.push(95);
    out.push(114);
    out.push(97);
    out.push(116);
    out.push(105);
    out.push(111);
    out.push(34);
    out.push(58);
    out.push(91);
    proof {
        assert(out@ =~= old(out)@ + lit_delay());
    }
    let d = f.delay();
    push_u32(out, d.0);
    out.push(44);
    push_u32(out, d.1);
    proof {
        assert(out@ =~= old(out)@ + lit_delay() + dec(f@.delay_ratio.0 as nat) + seq![44]
            + dec(f@.delay_ratio.1 as nat));
    }
    out.push(93);
    out.push(44);
    out.push(34);
    out.push(112);
    out.push(105);
    out.push(120);
    out.push(101);
    out.push(108);
    out.push(115);
    out.push(34);
    out.push(58);
    out.push(91);
    let ghost mid = old(out)@ + lit_delay() + dec(f@.delay_ratio.0 as nat) + seq![44] + dec(
        f@.delay_ratio.1 as nat,
    ) + lit_pixels();
    proof {
        assert(out@ =~= mid);
    }
    let ghost items = f@.pixels.map(|i: int, p: Seq<u8>| ser_pixel(p));
    let px = f.samples();
    let mut k: usize = 0;
    while k < px.len()
        invariant
            items == f@.pixels.map(|i: int, p: Seq<u8>| ser_pixel(p)),
            px.deep_view() == f@.pixels,
            px@.len() == f@.pixels.len(),
            0 <= k <= px@.len(),
            out@ == mid + join_comma(items.take(k as int)),
        decreases px@.len() - k,
    {
        if k > 0 {
            out.push(44);
        }
        push_pixel(out, &px[k]);
        k = k + 1;
        proof {
            assert(px@[k as int - 1]@ == f@.pixels[k as int - 1]);
            assert(items.take(k as int) =~= items.take(k as int - 1).push(items[k as int - 1]));
            lemma_join_push(items.take(k as int - 1), items[k as int - 1]);
            assert(out@ =~= mid + join_comma(items.take(k as int)));
        }
    }
    out.push(93);
    out.push(125);
    proof {
        assert(items.take(k as int) =~= items);
        assert(out@ =~= old(out)@ + ser_frame(f@));
    }
}

impl RgbaImageData {
    /// Encodes the model as its canonical JSON document. Total: every model
    /// value has exactly one encoding, stated by [`json_of`].
    pub fn to_json_bytes(&self) -> (r: Vec<u8>)
        ensures
            r@ == json_of(self@),
    {
        let mut out: Vec<u8> = Vec::new();
        out.push(123);
        out.push(34);
        out.push(100);
        out.push(105);
        out.push(109);
        out.push(101);
        out.push(110);
        out.push(115);
        out.push(105);
        out.push(111);
        out.push(110);
        out.push(115);
        out.push(34);
        out.push(58);
        out.push(91);
        proof {
            assert(out@ =~= lit_head());
        }
        let dims = self.get_dimensions();
        push_u32(&mut out, dims.0);
        out.push(44);
        push_u32(&mut out, dims.1);
        out.push(93);
        out.push(44);
        out.push(34);
        out.push(108);
        out.push(101);
        out.push(110);
        out.push(103);
        out.push(116);
        out.push(104);
        out.push(34);
        out.push(58);
        proof {
            assert(out@ =~= lit_head() + dec(self@.dimensions.0 as nat) + seq![44] + dec(
                self@.dimensions.1 as nat,
            ) + seq![93] + lit_length());
        }
        push_u32(&mut out, self.get_length());
        out.push(44);
        out.push(34);
        out.push(102);
        out.push(114);
        out.push(97);
        out.push(109);
        out.push(101);
        out.push(115);
        out.push(34);
        out.push(58);
        out.push(91);
        let ghost mid = lit_head() + dec(self@.dimensions.0 as nat) + seq![44] + dec(
            self@.dimensions.1 as nat,
        ) + seq![93] + lit_length() + dec(self@.length as nat) + lit_frames();
        proof {
            assert(out@ =~= mid);
        }
        let ghost items = self@.frames.map(|i: int, f: FrameModel| ser_frame(f));
        let fs = self.frames();
        let mut k: usize = 0;
        while k < fs.len()
            invariant
                items == self@.frames.map(|i: int, f: FrameModel| ser_frame(f)),
                fs.deep_view() == self@.frames,
                fs@.len() == self@.frames.len(),
                0 <= k <= fs@.len(),
                out@ == mid + join_comma(items.take(k as int)),
            decreases fs@.len() - k,
        {
            if k > 0 {
                out.push(44);
            }
            push_frame(&mut out, &fs[k]);
            k = k + 1;
            proof {
                assert(fs@[k as int - 1]@ == self@.frames[k as int - 1]);
                assert(items.take(k as int) =~= items.take(k as int - 1).push(
                    items[k as int - 1],
                ));
                lemma_join_push(items.take(k as int - 1), items[k as int - 1]);
                assert(out@ =~= mid + join_comma(items.take(k as int)));
            }
        }
        out.push(93);
        out.push(125);
        proof {
            assert(items.take(k as int) =~= items);
            assert(out@ =~= json_of(self@));
        }
        out
    }
}


/// Why a JSON document was rejected.
#[derive(Clone, Copy, Debug, PartialEq, Eq, Structural)]
pub enum FormatError {
    /// The input is not the canonical encoding of any well-formed model.
    Malformed,
}

/// The bytes of `t` stand in `s` at position `p`.
spec fn sub_at(s: Seq<u8>, p: int, t: Seq<u8>) -> bool {
    &&& 0 <= p
    &&& p + t.len() <= s.len()
    &&& s.subrange(p, p + t.len()) == t
}

/// An ASCII decimal digit.
spec fn is_digit(b: u8) -> bool {
    48 <= b && b <= 57
}

/// No digit stands at position `p` of `s` (possibly because `s` ends there).
spec fn no_digit_at(s: Seq<u8>, p: int) -> bool {
    p == s.len() || (0 <= p < s.len() && !is_digit(s[p]))
}

/// The number that a digit string denotes.
spec fn seq_val(s: Seq<u8>) -> int
    decreases s.len(),
{
    if s.len() == 0 {
        0
    } else {
        seq_val(s.drop_last()) * 10 + (s.last() - 48)
    }
}

proof fn lemma_dec_digits(n: nat)
    ensures
        dec(n).len() >= 1,
        forall|q: int| 0 <= q < dec(n).len() ==> is_digit(#[trigger] dec(n)[q]),
    decreases n,
{
    if n >= 10 {
        lemma_dec_digits(n / 10);
    }
}

proof fn lemma_dec_val(n: nat)
    ensures
        seq_val(dec(n)) == n,
    decreases n,
{
    if n < 10 {
        assert(dec(n) == seq![(48 + n) as u8]);
        assert(dec(n).drop_last() =~= Seq::<u8>::empty());
        assert(seq_val(dec(n)) == seq_val(Seq::<u8>::empty()) * 10 + ((48 + n) as u8 - 48));
    } else {
        lemma_dec_val(n / 10);
        assert(dec(n).drop_last() =~= dec(n / 10));
        assert(dec(n).last() == (48 + (n % 10)) as u8);
        assert(seq_val(dec(n)) == seq_val(dec(n / 10)) * 10 + ((48 + (n % 10)) as u8 - 48));
        assert(n == (n / 10) * 10 + n % 10);
    }
}

proof fn lemma_dec_prefix(n: nat, k: int)
    requires
        0 <= k <= dec(n).len(),
    ensures
        0 <= seq_val(dec(n).take(k)) <= n,
    decreases n,
{
    lemma_dec_digits(n);
    if k == dec(n).len() {
        assert(dec(n).take(k) =~= dec(n));
        lemma_dec_val(n);
    } else {
        if n < 10 {
            assert(k == 0);
            assert(dec(n).take(0) =~= Seq::<u8>::empty());
        } else {
            assert(dec(n).take(k) =~= dec(n / 10).take(k));
            lemma_dec_prefix(n / 10, k);
        }
    }
}

/// A decomposition of `t` standing in `s` splits into its parts in place.
proof fn lemma_split(s: Seq<u8>, p: int, a: Seq<u8>, b: Seq<u8>)
    requires
        sub_at(s, p, a + b),
    ensures
        sub_at(s, p, a),
        sub_at(s, p + a.len(), b),
{
    assert forall|q: int| 0 <= q < a.len() implies s[p + q] == a[q] by {
        assert(s.subrange(p, p + (a + b).len())[q] == (a + b)[q]);
    }
    assert forall|q: int| 0 <= q < b.len() implies s[p + a.len() + q] == b[q] by {
        assert(s.subrange(p, p + (a + b).len())[a.len() + q] == (a + b)[a.len() + q]);
    }
    assert(s.subrange(p, p + a.len()) =~= a);
    assert(s.subrange(p + a.len(), p + a.len() + b.len()) =~= b);
}

/// One byte of a matched piece, read off in place.
proof fn lemma_byte(s: Seq<u8>, p: int, t: Seq<u8>, k: int)
    requires
        sub_at(s, p, t),
        0 <= k < t.len(),
    ensures
        s[p + k] == t[k],
{
    assert(s.subrange(p, p + t.len())[k] == s[p + k]);
}

/// A matched piece pins every shorter prefix of the input in place.
proof fn lemma_match_prefix(s: Seq<u8>, p: int, t: Seq<u8>, e: int)
    requires
        sub_at(s, p, t),
        0 <= e <= t.len(),
    ensures
        s.subrange(p, p + e) == t.take(e),
{
    assert forall|q: int| 0 <= q < e implies s.subrange(p, p + e)[q] == t.take(e)[q] by {
        lemma_byte(s, p, t, q);
    }
    assert(s.subrange(p, p + e) =~= t.take(e));
}

/// Reads one decimal number. Whenever the digits of some `n: u32` stand at
/// `i` with no digit just after them, the parse must succeed with exactly
/// `n`, consuming exactly those digits.
fn parse_u32(v: &Vec<u8>, i: usize) -> (r: Option<(u32, usize)>)
    requires
        i <= v@.len(),
    ensures
        match r {
            Some((n, j)) => i < j <= v@.len(),
            None => true,
        },
        forall|n: u32|
            (#[trigger] sub_at(v@, i as int, dec(n as nat))) && no_digit_at(
                v@,
                i + dec(n as nat).len(),
            ) ==> r == Some((n, (i + dec(n as nat).len()) as usize)),
{
    let mut pos: usize = i;
    let mut acc: u64 = 0;
    let mut overflow: bool = false;
    while pos < v.len() && 48 <= v[pos] && v[pos] <= 57 && !overflow
        invariant
            i <= pos <= v@.len(),
            forall|q: int| i <= q < pos ==> is_digit(v@[q]),
            0 <= acc <= 0xffff_ffffu64,
            acc == seq_val(v@.subrange(i as int, pos as int)),
            overflow ==> pos < v@.len() && is_digit(v@[pos as int]) && seq_val(
                v@.subrange(i as int, pos as int).push(v@[pos as int]),
            ) > 0xffff_ffff,
        decreases v@.len() - pos + (if overflow { 0int } else { 1int }),
    {
        let d = v[pos];
        let next: u64 = acc * 10 + ((d - 48) as u64);
        proof {
            assert(v@.subrange(i as int, pos as int).push(v@[pos as int]).drop_last() =~= v@
                .subrange(i as int, pos as int));
            assert(next == seq_val(v@.subrange(i as int, pos as int).push(v@[pos as int])));
        }
        if next > 0xffff_ffffu64 {
            overflow = true;
        } else {
            acc = next;
            pos = pos + 1;
            proof {
                assert(v@.subrange(i as int, pos as int) =~= v@.subrange(
                    i as int,
                    pos as int - 1,
                ).push(v@[pos as int - 1]));
            }
        }
    }
    if overflow {
        proof {
            assert forall|n: u32|
                sub_at(v@, i as int, dec(n as nat)) && no_digit_at(
                    v@,
                    i + dec(n as nat).len(),
                ) implies false by {
                let dn = dec(n as nat);
                lemma_dec_digits(n as nat);
                if pos - i >= dn.len() {
                    assert(i + dn.len() < v@.len());
                    if i + dn.len() < pos {
                        assert(is_digit(v@[i + dn.len()]));
                    } else {
                        assert(i + dn.len() == pos);
                        assert(is_digit(v@[pos as int]));
                    }
                } else {
                    lemma_match_prefix(v@, i as int, dn, pos - i + 1);
                    assert(v@.subrange(i as int, pos + 1) =~= v@.subrange(i as int, pos as int)
                        .push(v@[pos as int]));
                    assert(seq_val(dn.take(pos - i + 1)) > 0xffff_ffff);
                    lemma_dec_prefix(n as nat, pos - i + 1);
                }
            }
        }
        return None;
    }
    if pos == i {
        proof {
            assert forall|n: u32|
                sub_at(v@, i as int, dec(n as nat)) && no_digit_at(
                    v@,
                    i + dec(n as nat).len(),
                ) implies false by {
                lemma_dec_digits(n as nat);
                lemma_byte(v@, i as int, dec(n as nat), 0);
                assert(is_digit(v@[i as int]));
            }
        }
        return None;
    }
    let res: u32 = acc as u32;
    proof {
        assert forall|n: u32|
            sub_at(v@, i as int, dec(n as nat)) && no_digit_at(
                v@,
                i + dec(n as nat).len(),
            ) implies Some((res, pos)) == Some((n, (i + dec(n as nat).len()) as usize)) by {
            let dn = dec(n as nat);
            lemma_dec_digits(n as nat);
            if pos - i < dn.len() {
                lemma_byte(v@, i as int, dn, pos - i);
                assert(is_digit(v@[pos as int]));
                assert(pos < v@.len());
            }
            if pos - i > dn.len() {
                assert(is_digit(v@[i + dn.len()]));
            }
            assert(pos - i == dn.len());
            lemma_match_prefix(v@, i as int, dn, dn.len() as int);
            assert(dn.take(dn.len() as int) =~= dn);
            assert(v@.subrange(i as int, pos as int) == dn);
            lemma_dec_val(n as nat);
        }
    }
    Some((res, pos))
}


/// What follows a pixel's opening bracket: the comma-joined channel decimals
/// and the closing bracket.
spec fn tail_num(p: Seq<u8>) -> Seq<u8> {
    join_comma(p.map(|i: int, c: u8| dec(c as nat))) + seq![93u8]
}

spec fn tail_num_rest(p: Seq<u8>) -> Seq<u8> {
    if p.len() == 1 {
        seq![93u8]
    } else {
        seq![44u8] + tail_num(p.drop_first())
    }
}

proof fn lemma_tail_num_decomp(p: Seq<u8>)
    requires
        p.len() >= 1,
    ensures
        tail_num(p) == dec(p[0] as nat) + tail_num_rest(p),
        tail_num_rest(p).len() >= 1,
        !is_digit(tail_num_rest(p)[0]),
        tail_num_rest(p)[0] == (if p.len() == 1 { 93u8 } else { 44u8 }),
{
    let dm = p.map(|i: int, c: u8| dec(c as nat));
    assert(dm[0] == dec(p[0] as nat));
    if p.len() == 1 {
        assert(join_comma(dm) == dm[0]);
        assert(tail_num(p) =~= dec(p[0] as nat) + tail_num_rest(p));
    } else {
        assert(join_comma(dm) == dm[0] + seq![44u8] + join_comma(dm.drop_first()));
        assert(dm.drop_first() =~= p.drop_first().map(|i: int, c: u8| dec(c as nat)));
        assert(tail_num(p) =~= dec(p[0] as nat) + tail_num_rest(p));
    }
}

/// Everything a parser learns from a channel tail standing at `i`.
proof fn channels_hyp(v: Seq<u8>, i: int, p: Seq<u8>)
    requires
        p.len() >= 1,
        sub_at(v, i, tail_num(p)),
    ensures
        sub_at(v, i, dec((p[0] as u32) as nat)),
        no_digit_at(v, i + dec((p[0] as u32) as nat).len()),
        i + dec(p[0] as nat).len() < v.len(),
        v[i + dec(p[0] as nat).len()] == (if p.len() == 1 { 93u8 } else { 44u8 }),
        dec((p[0] as u32) as nat) == dec(p[0] as nat),
        p.len() == 1 ==> tail_num(p).len() == dec(p[0] as nat).len() + 1,
        p.len() > 1 ==> sub_at(v, i + dec(p[0] as nat).len() + 1, tail_num(p.drop_first()))
            && tail_num(p).len() == dec(p[0] as nat).len() + 1 + tail_num(p.drop_first()).len(),
{
    lemma_tail_num_decomp(p);
    assert((p[0] as u32) as nat == p[0] as nat);
    lemma_split(v, i, dec(p[0] as nat), tail_num_rest(p));
    lemma_byte(v, i + dec(p[0] as nat).len(), tail_num_rest(p), 0);
    if p.len() > 1 {
        assert(tail_num_rest(p) == seq![44u8] + tail_num(p.drop_first()));
        lemma_split(v, i + dec(p[0] as nat).len(), seq![44u8], tail_num(p.drop_first()));
    }
}

/// Reads the channel values of one pixel, from after the opening bracket up
/// to and including the closing bracket, appending them to `out`.
fn parse_channels(v: &Vec<u8>, i: usize, out: &mut Vec<u8>) -> (r: Option<usize>)
    requires
        i <= v@.len(),
    ensures
        match r {
            Some(j) => i < j <= v@.len(),
            None => true,
        },
        forall|p: Seq<u8>|
            p.len() >= 1 && (#[trigger] sub_at(v@, i as int, tail_num(p))) ==> r == Some(
                ((i + tail_num(p).len()) as usize),
            ) && final(out)@ == old(out)@ + p,
    decreases v@.len() - i,
{
    let pr = parse_u32(v, i);
    match pr {
        None => {
            proof {
                assert forall|p: Seq<u8>|
                    p.len() >= 1 && (#[trigger] sub_at(v@, i as int, tail_num(p))) implies false by {
                    channels_hyp(v@, i as int, p);
                }
            }
            None
        },
        Some((n, j)) => {
            if n > 255 {
                proof {
                    assert forall|p: Seq<u8>|
                        p.len() >= 1 && (#[trigger] sub_at(v@, i as int, tail_num(p))) implies false by {
                        channels_hyp(v@, i as int, p);
                        assert(n == p[0] as u32);
                    }
                }
                None
            } else {
                let ghost prior = out@;
                out.push(n as u8);
                if j < v.len() {
                    let c = v[j];
                    if c == 44 {
                        let jp = j + 1;
                        let rec = parse_channels(v, jp, out);
                        match rec {
                            Some(j2) => {
                                proof {
                                    assert forall|p: Seq<u8>|
                                        p.len() >= 1 && (#[trigger] sub_at(v@, i as int, tail_num(p))) implies
                                        Some(j2) == Some::<usize>(
                                        ((i + tail_num(p).len()) as usize),
                                    ) && out@ == old(out)@ + p by {
                                        channels_hyp(v@, i as int, p);
                                        assert(n == p[0] as u32);
                                        assert(j as int == i + dec(p[0] as nat).len());
                                        assert(p.len() > 1);
                                        assert(sub_at(v@, jp as int, tail_num(p.drop_first())));
                                        assert(out@ == (prior.push(p[0])) + p.drop_first());
                                        assert((prior.push(p[0])) + p.drop_first() =~= prior + p);
                                    }
                                }
                                Some(j2)
                            },
                            None => {
                                proof {
                                    assert forall|p: Seq<u8>|
                                        p.len() >= 1 && (#[trigger] sub_at(v@, i as int, tail_num(p))) implies
                                        false by {
                                        channels_hyp(v@, i as int, p);
                                        assert(n == p[0] as u32);
                                        assert(j as int == i + dec(p[0] as nat).len());
                                        assert(p.len() > 1);
                                        assert(sub_at(v@, jp as int, tail_num(p.drop_first())));
                                    }
                                }
                                None
                            },
                        }
                    } else if c == 93 {
                        proof {
                            assert forall|p: Seq<u8>|
                                p.len() >= 1 && (#[trigger] sub_at(v@, i as int, tail_num(p))) implies Some(
                                (j + 1) as usize,
                            ) == Some::<usize>(((i + tail_num(p).len()) as usize)) && out@ == old(
                                out,
                            )@ + p by {
                                channels_hyp(v@, i as int, p);
                                assert(n == p[0] as u32);
                                assert(j as int == i + dec(p[0] as nat).len());
                                assert(p.len() == 1);
                                assert(p =~= seq![p[0]]);
                                assert(prior.push(p[0]) =~= prior + p);
                            }
                        }
                        Some(j + 1)
                    } else {
                        proof {
                            assert forall|p: Seq<u8>|
                                p.len() >= 1 && (#[trigger] sub_at(v@, i as int, tail_num(p))) implies false by {
                                channels_hyp(v@, i as int, p);
                                assert(n == p[0] as u32);
                                assert(j as int == i + dec(p[0] as nat).len());
                            }
                        }
                        None
                    }
                } else {
                    proof {
                        assert forall|p: Seq<u8>|
                            p.len() >= 1 && (#[trigger] sub_at(v@, i as int, tail_num(p))) implies false by {
                            channels_hyp(v@, i as int, p);
                            assert(n == p[0] as u32);
                            assert(j as int == i + dec(p[0] as nat).len());
                        }
                    }
                    None
                }
            }
        },
    }
}


proof fn lemma_ser_pixel_decomp(p: Seq<u8>)
    ensures
        ser_pixel(p) == seq![91u8] + tail_num(p),
        ser_pixel(p).len() >= 2,
{
    assert(ser_pixel(p) =~= seq![91u8] + tail_num(p));
}

/// Reads one full pixel sample, brackets included.
fn parse_pixel(v: &Vec<u8>, i: usize) -> (r: Option<(Vec<u8>, usize)>)
    requires
        i <= v@.len(),
    ensures
        match r {
            Some(pr) => i < pr.1 <= v@.len(),
            None => true,
        },
        forall|p: Seq<u8>|
            p.len() >= 1 && (#[trigger] sub_at(v@, i as int, ser_pixel(p))) ==> (r matches Some(pr)
                && pr.0@ == p && pr.1 as int == i + ser_pixel(p).len()),
{
    if i < v.len() && v[i] == 91 {
        let ip = i + 1;
        let mut out: Vec<u8> = Vec::new();
        let rec = parse_channels(v, ip, &mut out);
        match rec {
            Some(j) => {
                let ghost outv = out@;
                let r = Some((out, j));
                proof {
                    assert forall|p: Seq<u8>|
                        p.len() >= 1 && (#[trigger] sub_at(v@, i as int, ser_pixel(p))) implies (r
                            matches Some(pr) && pr.0@ == p && pr.1 as int == i + ser_pixel(
                            p,
                        ).len()) by {
                        lemma_ser_pixel_decomp(p);
                        lemma_split(v@, i as int, seq![91u8], tail_num(p));
                        assert(sub_at(v@, ip as int, tail_num(p)));
                        assert(outv =~= Seq::<u8>::empty() + p);
                    }
                }
                r
            },
            None => {
                proof {
                    assert forall|p: Seq<u8>|
                        p.len() >= 1 && (#[trigger] sub_at(v@, i as int, ser_pixel(p))) implies
                        false by {
                        lemma_ser_pixel_decomp(p);
                        lemma_split(v@, i as int, seq![91u8], tail_num(p));
                        assert(sub_at(v@, ip as int, tail_num(p)));
                    }
                }
                None
            },
        }
    } else {
        proof {
            assert forall|p: Seq<u8>|
                p.len() >= 1 && (#[trigger] sub_at(v@, i as int, ser_pixel(p))) implies false by {
                lemma_ser_pixel_decomp(p);
                lemma_split(v@, i as int, seq![91u8], tail_num(p));
                lemma_byte(v@, i as int, seq![91u8], 0);
            }
        }
        None
    }
}

/// Every pixel of the list has at least one channel value.
spec fn all_pixels_ok(ps: Seq<Seq<u8>>) -> bool {
    forall|q: int| 0 <= q < ps.len() ==> (#[trigger] ps[q]).len() >= 1
}

/// What follows a pixel list's opening bracket: the comma-joined pixels and
/// the closing bracket.
spec fn tail_pixlist(ps: Seq<Seq<u8>>) -> Seq<u8> {
    join_comma(ps.map(|i: int, p: Seq<u8>| ser_pixel(p))) + seq![93u8]
}

spec fn tail_pixlist_rest(ps: Seq<Seq<u8>>) -> Seq<u8> {
    if ps.len() == 1 {
        seq![93u8]
    } else {
        seq![44u8] + tail_pixlist(ps.drop_first())
    }
}

proof fn lemma_tail_pixlist_decomp(ps: Seq<Seq<u8>>)
    requires
        ps.len() >= 1,
    ensures
        tail_pixlist(ps) == ser_pixel(ps[0]) + tail_pixlist_rest(ps),
        tail_pixlist_rest(ps).len() >= 1,
        tail_pixlist_rest(ps)[0] == (if ps.len() == 1 { 93u8 } else { 44u8 }),
{
    let dm = ps.map(|i: int, p: Seq<u8>| ser_pixel(p));
    assert(dm[0] == ser_pixel(ps[0]));
    if ps.len() == 1 {
        assert(join_comma(dm) == dm[0]);
        assert(tail_pixlist(ps) =~= ser_pixel(ps[0]) + tail_pixlist_rest(ps));
    } else {
        assert(join_comma(dm) == dm[0] + seq![44u8] + join_comma(dm.drop_first()));
        assert(dm.drop_first() =~= ps.drop_first().map(|i: int, p: Seq<u8>| ser_pixel(p)));
        assert(tail_pixlist(ps) =~= ser_pixel(ps[0]) + tail_pixlist_rest(ps));
    }
}

proof fn pixlist_hyp(v: Seq<u8>, i: int, ps: Seq<Seq<u8>>)
    requires
        ps.len() >= 1,
        all_pixels_ok(ps),
        sub_at(v, i, tail_pixlist(ps)),
    ensures
        sub_at(v, i, ser_pixel(ps[0])),
        ps[0].len() >= 1,
        i + ser_pixel(ps[0]).len() < v.len(),
        v[i + ser_pixel(ps[0]).len()] == (if ps.len() == 1 { 93u8 } else { 44u8 }),
        ps.len() == 1 ==> tail_pixlist(ps).len() == ser_pixel(ps[0]).len() + 1,
        ps.len() > 1 ==> sub_at(v, i + ser_pixel(ps[0]).len() + 1, tail_pixlist(ps.drop_first()))
            && all_pixels_ok(ps.drop_first()) && ps.drop_first().len() >= 1 && tail_pixlist(
            ps,
        ).len() == ser_pixel(ps[0]).len() + 1 + tail_pixlist(ps.drop_first()).len(),
{
    lemma_tail_pixlist_decomp(ps);
    lemma_split(v, i, ser_pixel(ps[0]), tail_pixlist_rest(ps));
    lemma_byte(v, i + ser_pixel(ps[0]).len(), tail_pixlist_rest(ps), 0);
    if ps.len() > 1 {
        assert(tail_pixlist_rest(ps) == seq![44u8] + tail_pixlist(ps.drop_first()));
        lemma_split(v, i + ser_pixel(ps[0]).len(), seq![44u8], tail_pixlist(ps.drop_first()));
        assert forall|q: int| 0 <= q < ps.drop_first().len() implies (#[trigger] ps.drop_first()[q]).len() >= 1 by {
            assert(ps.drop_first()[q] == ps[q + 1]);
        }
    }
}

/// Reads the pixels of one frame, from after the list's opening bracket up to
/// and including the closing bracket, appending them to `out`.
fn parse_pixlist(v: &Vec<u8>, i: usize, out: &mut Vec<Vec<u8>>) -> (r: Option<usize>)
    requires
        i <= v@.len(),
    ensures
        match r {
            Some(j) => i < j <= v@.len(),
            None => true,
        },
        forall|ps: Seq<Seq<u8>>|
            ps.len() >= 1 && all_pixels_ok(ps) && (#[trigger] sub_at(
                v@,
                i as int,
                tail_pixlist(ps),
            )) ==> r == Some(((i + tail_pixlist(ps).len()) as usize)) && final(out).deep_view()
                == old(out).deep_view() + ps,
    decreases v@.len() - i,
{
    let pr = parse_pixel(v, i);
    match pr {
        None => {
            proof {
                assert forall|ps: Seq<Seq<u8>>|
                    ps.len() >= 1 && all_pixels_ok(ps) && (#[trigger] sub_at(
                        v@,
                        i as int,
                        tail_pixlist(ps),
                    )) implies false by {
                    pixlist_hyp(v@, i as int, ps);
                }
            }
            None
        },
        Some((pv, j)) => {
            let ghost prior = out.deep_view();
            let ghost pdv = pv@;
            proof {
                assert(pv.deep_view() =~= pdv);
            }
            out.push(pv);
            proof {
                assert(out.deep_view() =~= prior.push(pdv));
            }
            if j < v.len() {
                let c = v[j];
                if c == 44 {
                    let jp = j + 1;
                    let rec = parse_pixlist(v, jp, out);
                    match rec {
                        Some(j2) => {
                            proof {
                                assert forall|ps: Seq<Seq<u8>>|
                                    ps.len() >= 1 && all_pixels_ok(ps) && (#[trigger] sub_at(
                                        v@,
                                        i as int,
                                        tail_pixlist(ps),
                                    )) implies Some(j2) == Some::<usize>(
                                    ((i + tail_pixlist(ps).len()) as usize),
                                ) && out.deep_view() == old(out).deep_view() + ps by {
                                    pixlist_hyp(v@, i as int, ps);
                                    assert(pdv == ps[0]);
                                    assert(j as int == i + ser_pixel(ps[0]).len());
                                    assert(ps.len() > 1);
                                    assert(sub_at(v@, jp as int, tail_pixlist(ps.drop_first())));
                                    assert(out.deep_view() == (prior.push(ps[0]))
                                        + ps.drop_first());
                                    assert((prior.push(ps[0])) + ps.drop_first() =~= prior + ps);
                                }
                            }
                            Some(j2)
                        },
                        None => {
                            proof {
                                assert forall|ps: Seq<Seq<u8>>|
                                    ps.len() >= 1 && all_pixels_ok(ps) && (#[trigger] sub_at(
                                        v@,
                                        i as int,
                                        tail_pixlist(ps),
                                    )) implies false by {
                                    pixlist_hyp(v@, i as int, ps);
                                    assert(pdv == ps[0]);
                                    assert(j as int == i + ser_pixel(ps[0]).len());
                                    assert(ps.len() > 1);
                                    assert(sub_at(v@, jp as int, tail_pixlist(ps.drop_first())));
                                }
                            }
                            None
                        },
                    }
                } else if c == 93 {
                    proof {
                        assert forall|ps: Seq<Seq<u8>>|
                            ps.len() >= 1 && all_pixels_ok(ps) && (#[trigger] sub_at(
                                v@,
                                i as int,
                                tail_pixlist(ps),
                            )) implies Some((j + 1) as usize) == Some::<usize>(
                            ((i + tail_pixlist(ps).len()) as usize),
                        ) && out.deep_view() == old(out).deep_view() + ps by {
                            pixlist_hyp(v@, i as int, ps);
                            assert(pdv == ps[0]);
                            assert(j as int == i + ser_pixel(ps[0]).len());
                            assert(ps.len() == 1);
                            assert(ps =~= seq![ps[0]]);
                            assert(prior.push(ps[0]) =~= prior + ps);
                        }
                    }
                    Some(j + 1)
                } else {
                    proof {
                        assert forall|ps: Seq<Seq<u8>>|
                            ps.len() >= 1 && all_pixels_ok(ps) && (#[trigger] sub_at(
                                v@,
                                i as int,
                                tail_pixlist(ps),
                            )) implies false by {
                            pixlist_hyp(v@, i as int, ps);
                            assert(pdv == ps[0]);
                            assert(j as int == i + ser_pixel(ps[0]).len());
                        }
                    }
                    None
                }
            } else {
                proof {
                    assert forall|ps: Seq<Seq<u8>>|
                        ps.len() >= 1 && all_pixels_ok(ps) && (#[trigger] sub_at(
                            v@,
                            i as int,
                            tail_pixlist(ps),
                        )) implies false by {
                        pixlist_hyp(v@, i as int, ps);
                        assert(pdv == ps[0]);
                        assert(j as int == i + ser_pixel(ps[0]).len());
                    }
                }
                None
            }
        },
    }
}


/// Matches one fixed literal at `i`: succeeds exactly when it stands there.
fn eat(v: &Vec<u8>, i: usize, lit: &Vec<u8>) -> (r: Option<usize>)
    requires
        i <= v@.len(),
    ensures
        match r {
            Some(j) => j as int == i + lit@.len() && j <= v@.len() && sub_at(v@, i as int, lit@),
            None => !sub_at(v@, i as int, lit@),
        },
{
    let vn = v.len();
    if vn - i < lit.len() {
        return None;
    }
    let mut q: usize = 0;
    while q < lit.len()
        invariant
            vn == v@.len(),
            i + lit@.len() <= v@.len(),
            0 <= q <= lit@.len(),
            forall|t: int| 0 <= t < q ==> v@[i + t] == lit@[t],
        decreases lit@.len() - q,
    {
        if v[i + q] != lit[q] {
            proof {
                assert(!sub_at(v@, i as int, lit@)) by {
                    if sub_at(v@, i as int, lit@) {
                        lemma_byte(v@, i as int, lit@, q as int);
                    }
                }
            }
            return None;
        }
        q = q + 1;
    }
    proof {
        assert(v@.subrange(i as int, i + lit@.len()) =~= lit@);
    }
    Some(i + lit.len())
}

fn lit_head_vec() -> (r: Vec<u8>)
    ensures
        r@ == lit_head(),
{
    let v: Vec<u8> = vec![123, 34, 100, 105, 109, 101, 110, 115, 105, 111, 110, 115, 34, 58, 91];
    proof {
        assert(v@ =~= lit_head());
    }
    v
}

fn lit_length_vec() -> (r: Vec<u8>)
    ensures
        r@ == lit_length(),
{
    let v: Vec<u8> = vec![44, 34, 108, 101, 110, 103, 116, 104, 34, 58];
    proof {
        assert(v@ =~= lit_length());
    }
    v
}

fn lit_frames_vec() -> (r: Vec<u8>)
    ensures
        r@ == lit_frames(),
{
    let v: Vec<u8> = vec![44, 34, 102, 114, 97, 109, 101, 115, 34, 58, 91];
    proof {
        assert(v@ =~= lit_frames());
    }
    v
}

fn lit_delay_vec() -> (r: Vec<u8>)
    ensures
        r@ == lit_delay(),
{
    let v: Vec<u8> = vec![123, 34, 100, 101, 108, 97, 121, 95, 114, 97, 116, 105, 111, 34, 58, 91];
    proof {
        assert(v@ =~= lit_delay());
    }
    v
}

fn lit_pixels_vec() -> (r: Vec<u8>)
    ensures
        r@ == lit_pixels(),
{
    let v: Vec<u8> = vec![93, 44, 34, 112, 105, 120, 101, 108, 115, 34, 58, 91];
    proof {
        assert(v@ =~= lit_pixels());
    }
    v
}

/// A frame whose encoding the parser can invert: at least one pixel, and at
/// least one channel in every pixel.
spec fn frame_ok(f: FrameModel) -> bool {
    f.pixels.len() >= 1 && all_pixels_ok(f.pixels)
}

/// Everything a parser learns from one frame object standing at `i`.
proof fn frame_hyp(v: Seq<u8>, i: int, f: FrameModel)
    requires
        frame_ok(f),
        sub_at(v, i, ser_frame(f)),
    ensures
        sub_at(v, i, lit_delay()),
        sub_at(v, i + 16, dec(f.delay_ratio.0 as nat)),
        no_digit_at(v, i + 16 + dec(f.delay_ratio.0 as nat).len()),
        i + 16 + dec(f.delay_ratio.0 as nat).len() < v.len(),
        v[i + 16 + dec(f.delay_ratio.0 as nat).len()] == 44u8,
        sub_at(v, i + 17 + dec(f.delay_ratio.0 as nat).len(), dec(f.delay_ratio.1 as nat)),
        no_digit_at(
            v,
            i + 17 + dec(f.delay_ratio.0 as nat).len() + dec(f.delay_ratio.1 as nat).len(),
        ),
        sub_at(
            v,
            i + 17 + dec(f.delay_ratio.0 as nat).len() + dec(f.delay_ratio.1 as nat).len(),
            lit_pixels(),
        ),
        sub_at(
            v,
            i + 29 + dec(f.delay_ratio.0 as nat).len() + dec(f.delay_ratio.1 as nat).len(),
            tail_pixlist(f.pixels),
        ),
        f.pixels.len() >= 1,
        all_pixels_ok(f.pixels),
        i + 29 + dec(f.delay_ratio.0 as nat).len() + dec(f.delay_ratio.1 as nat).len()
            + tail_pixlist(f.pixels).len() < v.len(),
        v[i + 29 + dec(f.delay_ratio.0 as nat).len() + dec(f.delay_ratio.1 as nat).len()
            + tail_pixlist(f.pixels).len()] == 125u8,
        ser_frame(f).len() == 30 + dec(f.delay_ratio.0 as nat).len() + dec(
            f.delay_ratio.1 as nat,
        ).len() + tail_pixlist(f.pixels).len(),
{
    let da = dec(f.delay_ratio.0 as nat);
    let db = dec(f.delay_ratio.1 as nat);
    let tp = tail_pixlist(f.pixels);
    let rest5 = tp + seq![125u8];
    let rest4 = lit_pixels() + rest5;
    let rest3 = db + rest4;
    let rest2 = seq![44u8] + rest3;
    let rest1 = da + rest2;
    assert(ser_frame(f) =~= lit_delay() + rest1);
    lemma_split(v, i, lit_delay(), rest1);
    lemma_split(v, i + 16, da, rest2);
    lemma_byte(v, i + 16 + da.len(), rest2, 0);
    lemma_split(v, i + 16 + da.len(), seq![44u8], rest3);
    lemma_split(v, i + 17 + da.len(), db, rest4);
    lemma_byte(v, i + 17 + da.len() + db.len(), rest4, 0);
    assert(rest4[0] == lit_pixels()[0]);
    lemma_split(v, i + 17 + da.len() + db.len(), lit_pixels(), rest5);
    lemma_split(v, i + 29 + da.len() + db.len(), tp, seq![125u8]);
    lemma_byte(v, i + 29 + da.len() + db.len() + tp.len(), seq![125u8], 0);
}

/// Reads one full frame object.
#[verifier::rlimit(60)]
fn parse_frame(v: &Vec<u8>, i: usize) -> (r: Option<(DecodedFrame, usize)>)
    requires
        i <= v@.len(),
    ensures
        match r {
            Some(pr) => i < pr.1 <= v@.len(),
            None => true,
        },
        forall|f: FrameModel|
            frame_ok(f) && (#[trigger] sub_at(v@, i as int, ser_frame(f))) ==> (r matches Some(pr)
                && pr.0@ == f && pr.1 as int == i + ser_frame(f).len()),
{
    let l1 = lit_delay_vec();
    let e1 = eat(v, i, &l1);
    match e1 {
        None => {
            proof {
                assert forall|f: FrameModel|
                    frame_ok(f) && (#[trigger] sub_at(v@, i as int, ser_frame(f))) implies false by {
                    frame_hyp(v@, i as int, f);
                }
            }
            None
        },
        Some(p1) => {
            let n1 = parse_u32(v, p1);
            match n1 {
                None => {
                    proof {
                        assert forall|f: FrameModel|
                            frame_ok(f) && (#[trigger] sub_at(v@, i as int, ser_frame(f))) implies
                            false by {
                            frame_hyp(v@, i as int, f);
                            assert(sub_at(v@, p1 as int, dec(f.delay_ratio.0 as nat)));
                        }
                    }
                    None
                },
                Some((a, p2)) => {
                    if p2 < v.len() && v[p2] == 44 {
                        let p2p = p2 + 1;
                        let n2 = parse_u32(v, p2p);
                        match n2 {
                            None => {
                                proof {
                                    assert forall|f: FrameModel|
                                        frame_ok(f) && (#[trigger] sub_at(
                                            v@,
                                            i as int,
                                            ser_frame(f),
                                        )) implies false by {
                                        frame_hyp(v@, i as int, f);
                                        assert(sub_at(v@, p1 as int, dec(f.delay_ratio.0 as nat)));
                                        assert(a == f.delay_ratio.0);
                                        assert(sub_at(v@, p2p as int, dec(f.delay_ratio.1 as nat)));
                                    }
                                }
                                None
                            },
                            Some((b, p3)) => {
                                let l2 = lit_pixels_vec();
                                let e2 = eat(v, p3, &l2);
                                match e2 {
                                    None => {
                                        proof {
                                            assert forall|f: FrameModel|
                                                frame_ok(f) && (#[trigger] sub_at(
                                                    v@,
                                                    i as int,
                                                    ser_frame(f),
                                                )) implies false by {
                                                frame_hyp(v@, i as int, f);
                                                assert(sub_at(v@, p1 as int, dec(f.delay_ratio.0 as nat)));
                                                assert(a == f.delay_ratio.0);
                                                assert(sub_at(v@, p2p as int, dec(f.delay_ratio.1 as nat)));
                                                assert(b == f.delay_ratio.1);
                                                assert(sub_at(v@, p3 as int, lit_pixels()));
                                            }
                                        }
                                        None
                                    },
                                    Some(p4) => {
                                        let mut px: Vec<Vec<u8>> = Vec::new();
                                        let lr = parse_pixlist(v, p4, &mut px);
                                        match lr {
                                            None => {
                                                proof {
                                                    assert forall|f: FrameModel|
                                                        frame_ok(f) && (#[trigger] sub_at(
                                                            v@,
                                                            i as int,
                                                            ser_frame(f),
                                                        )) implies false by {
                                                        frame_hyp(v@, i as int, f);
                                                        assert(sub_at(v@, p1 as int, dec(f.delay_ratio.0 as nat)));
                                                        assert(a == f.delay_ratio.0);
                                                        assert(sub_at(v@, p2p as int, dec(f.delay_ratio.1 as nat)));
                                                        assert(b == f.delay_ratio.1);
                                                        assert(sub_at(v@, p4 as int, tail_pixlist(f.pixels)));
                                                    }
                                                }
                                                None
                                            },
                                            Some(p5) => {
                                                if p5 < v.len() && v[p5] == 125 {
                                                    let ghost pxdv = px.deep_view();
                                                    let df = DecodedFrame::new((a, b), px);
                                                    let r = Some((df, p5 + 1));
                                                    proof {
                                                        assert forall|f: FrameModel|
                                                            frame_ok(f) && (#[trigger] sub_at(
                                                                v@,
                                                                i as int,
                                                                ser_frame(f),
                                                            )) implies (r matches Some(pr) && pr.0@
                                                            == f && pr.1 as int == i + ser_frame(
                                                            f,
                                                        ).len()) by {
                                                            frame_hyp(v@, i as int, f);
                                                            assert(sub_at(v@, p1 as int, dec(f.delay_ratio.0 as nat)));
                                                            assert(a == f.delay_ratio.0);
                                                            assert(sub_at(v@, p2p as int, dec(f.delay_ratio.1 as nat)));
                                                            assert(b == f.delay_ratio.1);
                                                            assert(sub_at(v@, p4 as int, tail_pixlist(f.pixels)));
                                                            assert(pxdv == Seq::<Seq<u8>>::empty() + f.pixels);
                                                            assert(Seq::<Seq<u8>>::empty() + f.pixels =~= f.pixels);
                                                            assert(df@ =~= f);
                                                        }
                                                    }
                                                    r
                                                } else {
                                                    proof {
                                                        assert forall|f: FrameModel|
                                                            frame_ok(f) && (#[trigger] sub_at(
                                                                v@,
                                                                i as int,
                                                                ser_frame(f),
                                                            )) implies false by {
                                                            frame_hyp(v@, i as int, f);
                                                            assert(sub_at(v@, p1 as int, dec(f.delay_ratio.0 as nat)));
                                                            assert(a == f.delay_ratio.0);
                                                            assert(sub_at(v@, p2p as int, dec(f.delay_ratio.1 as nat)));
                                                            assert(b == f.delay_ratio.1);
                                                            assert(sub_at(v@, p4 as int, tail_pixlist(f.pixels)));
                                                        }
                                                    }
                                                    None
                                                }
                                            },
                                        }
                                    },
                                }
                            },
                        }
                    } else {
                        proof {
                            assert forall|f: FrameModel|
                                frame_ok(f) && (#[trigger] sub_at(v@, i as int, ser_frame(f)))
                                implies false by {
                                frame_hyp(v@, i as int, f);
                                assert(sub_at(v@, p1 as int, dec(f.delay_ratio.0 as nat)));
                                assert(a == f.delay_ratio.0);
                            }
                        }
                        None
                    }
                },
            }
        },
    }
}


/// Every frame of the list can be read back from its encoding.
spec fn frames_ok(fs: Seq<FrameModel>) -> bool {
    forall|q: int| 0 <= q < fs.len() ==> frame_ok(#[trigger] fs[q])
}

/// What follows the frame list's opening bracket: the comma-joined frame
/// objects and the closing bracket.
spec fn tail_framelist(fs: Seq<FrameModel>) -> Seq<u8> {
    join_comma(fs.map(|i: int, f: FrameModel| ser_frame(f))) + seq![93u8]
}

spec fn tail_framelist_rest(fs: Seq<FrameModel>) -> Seq<u8> {
    if fs.len() == 1 {
        seq![93u8]
    } else {
        seq![44u8] + tail_framelist(fs.drop_first())
    }
}

proof fn lemma_tail_framelist_decomp(fs: Seq<FrameModel>)
    requires
        fs.len() >= 1,
    ensures
        tail_framelist(fs) == ser_frame(fs[0]) + tail_framelist_rest(fs),
        tail_framelist_rest(fs).len() >= 1,
        tail_framelist_rest(fs)[0] == (if fs.len() == 1 { 93u8 } else { 44u8 }),
{
    let dm = fs.map(|i: int, f: FrameModel| ser_frame(f));
    assert(dm[0] == ser_frame(fs[0]));
    if fs.len() == 1 {
        assert(join_comma(dm) == dm[0]);
        assert(tail_framelist(fs) =~= ser_frame(fs[0]) + tail_framelist_rest(fs));
    } else {
        assert(join_comma(dm) == dm[0] + seq![44u8] + join_comma(dm.drop_first()));
        assert(dm.drop_first() =~= fs.drop_first().map(|i: int, f: FrameModel| ser_frame(f)));
        assert(tail_framelist(fs) =~= ser_frame(fs[0]) + tail_framelist_rest(fs));
    }
}

proof fn framelist_hyp(v: Seq<u8>, i: int, fs: Seq<FrameModel>)
    requires
        fs.len() >= 1,
        frames_ok(fs),
        sub_at(v, i, tail_framelist(fs)),
    ensures
        sub_at(v, i, ser_frame(fs[0])),
        frame_ok(fs[0]),
        i + ser_frame(fs[0]).len() < v.len(),
        v[i + ser_frame(fs[0]).len()] == (if fs.len() == 1 { 93u8 } else { 44u8 }),
        fs.len() == 1 ==> tail_framelist(fs).len() == ser_frame(fs[0]).len() + 1,
        fs.len() > 1 ==> sub_at(v, i + ser_frame(fs[0]).len() + 1, tail_framelist(fs.drop_first()))
            && frames_ok(fs.drop_first()) && fs.drop_first().len() >= 1 && tail_framelist(
            fs,
        ).len() == ser_frame(fs[0]).len() + 1 + tail_framelist(fs.drop_first()).len(),
{
    lemma_tail_framelist_decomp(fs);
    lemma_split(v, i, ser_frame(fs[0]), tail_framelist_rest(fs));
    lemma_byte(v, i + ser_frame(fs[0]).len(), tail_framelist_rest(fs), 0);
    if fs.len() > 1 {
        assert(tail_framelist_rest(fs) == seq![44u8] + tail_framelist(fs.drop_first()));
        lemma_split(v, i + ser_frame(fs[0]).len(), seq![44u8], tail_framelist(fs.drop_first()));
        assert forall|q: int|
            0 <= q < fs.drop_first().len() implies frame_ok(#[trigger] fs.drop_first()[q]) by {
            assert(fs.drop_first()[q] == fs[q + 1]);
        }
    }
}

/// Reads the frames of the document, from after the list's opening bracket up
/// to and including the closing bracket, appending them to `out`.
fn parse_framelist(v: &Vec<u8>, i: usize, out: &mut Vec<DecodedFrame>) -> (r: Option<usize>)
    requires
        i <= v@.len(),
    ensures
        match r {
            Some(j) => i < j <= v@.len(),
            None => true,
        },
        forall|fs: Seq<FrameModel>|
            fs.len() >= 1 && frames_ok(fs) && (#[trigger] sub_at(v@, i as int, tail_framelist(fs)))
                ==> r == Some(((i + tail_framelist(fs).len()) as usize)) && final(out).deep_view()
                == old(out).deep_view() + fs,
    decreases v@.len() - i,
{
    let pr = parse_frame(v, i);
    match pr {
        None => {
            proof {
                assert forall|fs: Seq<FrameModel>|
                    fs.len() >= 1 && frames_ok(fs) && (#[trigger] sub_at(
                        v@,
                        i as int,
                        tail_framelist(fs),
                    )) implies false by {
                    framelist_hyp(v@, i as int, fs);
                }
            }
            None
        },
        Some((fv, j)) => {
            let ghost prior = out.deep_view();
            let ghost fdv = fv@;
            out.push(fv);
            proof {
                assert(out.deep_view() =~= prior.push(fdv));
            }
            if j < v.len() {
                let c = v[j];
                if c == 44 {
                    let jp = j + 1;
                    let rec = parse_framelist(v, jp, out);
                    match rec {
                        Some(j2) => {
                            proof {
                                assert forall|fs: Seq<FrameModel>|
                                    fs.len() >= 1 && frames_ok(fs) && (#[trigger] sub_at(
                                        v@,
                                        i as int,
                                        tail_framelist(fs),
                                    )) implies Some(j2) == Some::<usize>(
                                    ((i + tail_framelist(fs).len()) as usize),
                                ) && out.deep_view() == old(out).deep_view() + fs by {
                                    framelist_hyp(v@, i as int, fs);
                                    assert(fdv == fs[0]);
                                    assert(j as int == i + ser_frame(fs[0]).len());
                                    assert(fs.len() > 1);
                                    assert(sub_at(v@, jp as int, tail_framelist(fs.drop_first())));
                                    assert(out.deep_view() == (prior.push(fs[0]))
                                        + fs.drop_first());
                                    assert((prior.push(fs[0])) + fs.drop_first() =~= prior + fs);
                                }
                            }
                            Some(j2)
                        },
                        None => {
                            proof {
                                assert forall|fs: Seq<FrameModel>|
                                    fs.len() >= 1 && frames_ok(fs) && (#[trigger] sub_at(
                                        v@,
                                        i as int,
                                        tail_framelist(fs),
                                    )) implies false by {
                                    framelist_hyp(v@, i as int, fs);
                                    assert(fdv == fs[0]);
                                    assert(j as int == i + ser_frame(fs[0]).len());
                                    assert(fs.len() > 1);
                                    assert(sub_at(v@, jp as int, tail_framelist(fs.drop_first())));
                                }
                            }
                            None
                        },
                    }
                } else if c == 93 {
                    proof {
                        assert forall|fs: Seq<FrameModel>|
                            fs.len() >= 1 && frames_ok(fs) && (#[trigger] sub_at(
                                v@,
                                i as int,
                                tail_framelist(fs),
                            )) implies Some((j + 1) as usize) == Some::<usize>(
                            ((i + tail_framelist(fs).len()) as usize),
                        ) && out.deep_view() == old(out).deep_view() + fs by {
                            framelist_hyp(v@, i as int, fs);
                            assert(fdv == fs[0]);
                            assert(j as int == i + ser_frame(fs[0]).len());
                            assert(fs.len() == 1);
                            assert(fs =~= seq![fs[0]]);
                            assert(prior.push(fs[0]) =~= prior + fs);
                        }
                    }
                    Some(j + 1)
                } else {
                    proof {
                        assert forall|fs: Seq<FrameModel>|
                            fs.len() >= 1 && frames_ok(fs) && (#[trigger] sub_at(
                                v@,
                                i as int,
                                tail_framelist(fs),
                            )) implies false by {
                            framelist_hyp(v@, i as int, fs);
                            assert(fdv == fs[0]);
                            assert(j as int == i + ser_frame(fs[0]).len());
                        }
                    }
                    None
                }
            } else {
                proof {
                    assert forall|fs: Seq<FrameModel>|
                        fs.len() >= 1 && frames_ok(fs) && (#[trigger] sub_at(
                            v@,
                            i as int,
                            tail_framelist(fs),
                        )) implies false by {
                        framelist_hyp(v@, i as int, fs);
                        assert(fdv == fs[0]);
                        assert(j as int == i + ser_frame(fs[0]).len());
                    }
                }
                None
            }
        },
    }
}

/// Whether two byte vectors hold the same bytes.
fn bytes_eq(a: &Vec<u8>, b: &Vec<u8>) -> (r: bool)
    ensures
        r <==> a@ == b@,
{
    if a.len() != b.len() {
        return false;
    }
    let n = a.len();
    let mut k: usize = 0;
    while k < n
        invariant
            n == a@.len(),
            n == b@.len(),
            0 <= k <= n,
            forall|t: int| 0 <= t < k ==> a@[t] == b@[t],
        decreases n - k,
    {
        if a[k] != b[k] {
            return false;
        }
        k = k + 1;
    }
    proof {
        assert(a@ =~= b@);
    }
    true
}

/// Everything a parser learns from a whole document equal to `json_of(m)`.
#[verifier::rlimit(100)]
#[verifier::spinoff_prover]
proof fn doc_hyp(v: Seq<u8>, m: ImageModel)
    requires
        m.wf(),
        m.dimensions.0 >= 1,
        m.dimensions.1 >= 1,
        json_of(m) == v,
    ensures
        sub_at(v, 0, lit_head()),
        sub_at(v, 15int, dec(m.dimensions.0 as nat)),
        no_digit_at(v, 15int + dec(m.dimensions.0 as nat).len()),
        15int + dec(m.dimensions.0 as nat).len() < v.len(),
        v[15int + dec(m.dimensions.0 as nat).len()] == 44u8,
        sub_at(v, 16int + dec(m.dimensions.0 as nat).len(), dec(m.dimensions.1 as nat)),
        no_digit_at(v, 16int + dec(m.dimensions.0 as nat).len() + dec(m.dimensions.1 as nat).len()),
        16int + dec(m.dimensions.0 as nat).len() + dec(m.dimensions.1 as nat).len() < v.len(),
        v[16int + dec(m.dimensions.0 as nat).len() + dec(m.dimensions.1 as nat).len()] == 93u8,
        sub_at(
            v,
            17int + dec(m.dimensions.0 as nat).len() + dec(m.dimensions.1 as nat).len(),
            lit_length(),
        ),
        sub_at(
            v,
            27int + dec(m.dimensions.0 as nat).len() + dec(m.dimensions.1 as nat).len(),
            dec(m.length as nat),
        ),
        no_digit_at(
            v,
            27int + dec(m.dimensions.0 as nat).len() + dec(m.dimensions.1 as nat).len() + dec(
                m.length as nat,
            ).len(),
        ),
        sub_at(
            v,
            27int + dec(m.dimensions.0 as nat).len() + dec(m.dimensions.1 as nat).len() + dec(
                m.length as nat,
            ).len(),
            lit_frames(),
        ),
        sub_at(
            v,
            38int + dec(m.dimensions.0 as nat).len() + dec(m.dimensions.1 as nat).len() + dec(
                m.length as nat,
            ).len(),
            tail_framelist(m.frames),
        ),
        m.frames.len() >= 1,
        frames_ok(m.frames),
        38int + dec(m.dimensions.0 as nat).len() + dec(m.dimensions.1 as nat).len() + dec(
            m.length as nat,
        ).len() + tail_framelist(m.frames).len() < v.len(),
        v[38int + dec(m.dimensions.0 as nat).len() + dec(m.dimensions.1 as nat).len() + dec(
            m.length as nat,
        ).len() + tail_framelist(m.frames).len()] == 125u8,
{
    let dw = dec(m.dimensions.0 as nat);
    let dh = dec(m.dimensions.1 as nat);
    let dl = dec(m.length as nat);
    let tf = tail_framelist(m.frames);
    let rest7 = tf + seq![125u8];
    let rest6 = lit_frames() + rest7;
    let rest5 = dl + rest6;
    let rest4 = lit_length() + rest5;
    let rest3 = seq![93u8] + rest4;
    let rest2 = dh + rest3;
    let rest1 = seq![44u8] + rest2;
    let rest0 = dw + rest1;
    assert(v == lit_head() + rest0) by {
        assert(json_of(m) =~= lit_head() + rest0);
    }
    assert(sub_at(v, 0, lit_head() + rest0)) by {
        assert(v.subrange(0, v.len() as int) =~= v);
    }
    lemma_split(v, 0, lit_head(), rest0);
    lemma_split(v, 15int, dw, rest1);
    lemma_byte(v, 15int + dw.len(), rest1, 0);
    lemma_split(v, 15int + dw.len(), seq![44u8], rest2);
    lemma_split(v, 16int + dw.len(), dh, rest3);
    lemma_byte(v, 16int + dw.len() + dh.len(), rest3, 0);
    lemma_split(v, 16int + dw.len() + dh.len(), seq![93u8], rest4);
    lemma_split(v, 17int + dw.len() + dh.len(), lit_length(), rest5);
    lemma_split(v, 27int + dw.len() + dh.len(), dl, rest6);
    lemma_byte(v, 27int + dw.len() + dh.len() + dl.len(), rest6, 0);
    assert(rest6[0] == lit_frames()[0]);
    lemma_split(v, 27int + dw.len() + dh.len() + dl.len(), lit_frames(), rest7);
    lemma_split(v, 38int + dw.len() + dh.len() + dl.len(), tf, seq![125u8]);
    lemma_byte(v, 38int + dw.len() + dh.len() + dl.len() + tf.len(), seq![125u8], 0);
    assert(m.dimensions.0 as int * m.dimensions.1 as int >= 1) by (nonlinear_arith)
        requires
            m.dimensions.0 >= 1,
            m.dimensions.1 >= 1,
    ;
    assert forall|q: int| 0 <= q < m.frames.len() implies frame_ok(#[trigger] m.frames[q]) by {
        assert(m.frames[q].pixels.len() == m.dimensions.0 * m.dimensions.1);
        assert forall|t: int|
            0 <= t < m.frames[q].pixels.len() implies (#[trigger] m.frames[q].pixels[t]).len()
            >= 1 by {
            assert(m.frames[q].pixels[t].len() == channel_count(m.mode));
        }
    }
}

/// Reads the whole document's syntax: header, dimensions, length and frame
/// list. Whenever the input is the encoding of a well-formed model with
/// non-zero dimensions, this must succeed with that model's exact parts.
#[verifier::rlimit(100)]
#[verifier::spinoff_prover]
fn parse_doc(v: &Vec<u8>) -> (r: Option<(u32, u32, u32, Vec<DecodedFrame>)>)
    ensures
        forall|m: ImageModel|
            m.wf() && m.dimensions.0 >= 1 && m.dimensions.1 >= 1 && (#[trigger] json_of(m)) == v@
                ==> (r matches Some(t) && t.0 == m.dimensions.0 && t.1 == m.dimensions.1 && t.2
                == m.length && t.3.deep_view() == m.frames),
{
    let l1 = lit_head_vec();
    let e1 = eat(v, 0, &l1);
    if e1.is_none() {
        proof {
            assert forall|m: ImageModel|
                m.wf() && m.dimensions.0 >= 1 && m.dimensions.1 >= 1 && (#[trigger] json_of(m))
                    == v@ implies false by {
                doc_hyp(v@, m);
            }
        }
        return None;
    }
    let p1 = e1.unwrap();
    let n1 = parse_u32(v, p1);
    if n1.is_none() {
        proof {
            assert forall|m: ImageModel|
                m.wf() && m.dimensions.0 >= 1 && m.dimensions.1 >= 1 && (#[trigger] json_of(m))
                    == v@ implies false by {
                doc_hyp(v@, m);
                assert(sub_at(v@, p1 as int, dec(m.dimensions.0 as nat)));
            }
        }
        return None;
    }
    let (w, p2) = n1.unwrap();
    if !(p2 < v.len() && v[p2] == 44) {
        proof {
            assert forall|m: ImageModel|
                m.wf() && m.dimensions.0 >= 1 && m.dimensions.1 >= 1 && (#[trigger] json_of(m))
                    == v@ implies false by {
                doc_hyp(v@, m);
                assert(sub_at(v@, p1 as int, dec(m.dimensions.0 as nat)));
                assert(w == m.dimensions.0);
            }
        }
        return None;
    }
    let p2p = p2 + 1;
    let n2 = parse_u32(v, p2p);
    if n2.is_none() {
        proof {
            assert forall|m: ImageModel|
                m.wf() && m.dimensions.0 >= 1 && m.dimensions.1 >= 1 && (#[trigger] json_of(m))
                    == v@ implies false by {
                doc_hyp(v@, m);
                assert(sub_at(v@, p1 as int, dec(m.dimensions.0 as nat)));
                assert(w == m.dimensions.0);
                assert(sub_at(v@, p2p as int, dec(m.dimensions.1 as nat)));
            }
        }
        return None;
    }
    let (h, p3) = n2.unwrap();
    if !(p3 < v.len() && v[p3] == 93) {
        proof {
            assert forall|m: ImageModel|
                m.wf() && m.dimensions.0 >= 1 && m.dimensions.1 >= 1 && (#[trigger] json_of(m))
                    == v@ implies false by {
                doc_hyp(v@, m);
                assert(sub_at(v@, p1 as int, dec(m.dimensions.0 as nat)));
                assert(w == m.dimensions.0);
                assert(sub_at(v@, p2p as int, dec(m.dimensions.1 as nat)));
                assert(h == m.dimensions.1);
            }
        }
        return None;
    }
    let p3p = p3 + 1;
    let l2 = lit_length_vec();
    let e2 = eat(v, p3p, &l2);
    if e2.is_none() {
        proof {
            assert forall|m: ImageModel|
                m.wf() && m.dimensions.0 >= 1 && m.dimensions.1 >= 1 && (#[trigger] json_of(m))
                    == v@ implies false by {
                doc_hyp(v@, m);
                assert(sub_at(v@, p1 as int, dec(m.dimensions.0 as nat)));
                assert(w == m.dimensions.0);
                assert(sub_at(v@, p2p as int, dec(m.dimensions.1 as nat)));
                assert(h == m.dimensions.1);
                assert(sub_at(v@, p3p as int, lit_length()));
            }
        }
        return None;
    }
    let p4 = e2.unwrap();
    let n3 = parse_u32(v, p4);
    if n3.is_none() {
        proof {
            assert forall|m: ImageModel|
                m.wf() && m.dimensions.0 >= 1 && m.dimensions.1 >= 1 && (#[trigger] json_of(m))
                    == v@ implies false by {
                doc_hyp(v@, m);
                assert(sub_at(v@, p1 as int, dec(m.dimensions.0 as nat)));
                assert(w == m.dimensions.0);
                assert(sub_at(v@, p2p as int, dec(m.dimensions.1 as nat)));
                assert(h == m.dimensions.1);
                assert(sub_at(v@, p4 as int, dec(m.length as nat)));
            }
        }
        return None;
    }
    let (len32, p5) = n3.unwrap();
    let l3 = lit_frames_vec();
    let e3 = eat(v, p5, &l3);
    if e3.is_none() {
        proof {
            assert forall|m: ImageModel|
                m.wf() && m.dimensions.0 >= 1 && m.dimensions.1 >= 1 && (#[trigger] json_of(m))
                    == v@ implies false by {
                doc_hyp(v@, m);
                assert(sub_at(v@, p1 as int, dec(m.dimensions.0 as nat)));
                assert(w == m.dimensions.0);
                assert(sub_at(v@, p2p as int, dec(m.dimensions.1 as nat)));
                assert(h == m.dimensions.1);
                assert(sub_at(v@, p4 as int, dec(m.length as nat)));
                assert(len32 == m.length);
                assert(sub_at(v@, p5 as int, lit_frames()));
            }
        }
        return None;
    }
    let p6 = e3.unwrap();
    let mut frames: Vec<DecodedFrame> = Vec::new();
    let lr = parse_framelist(v, p6, &mut frames);
    if lr.is_none() {
        proof {
            assert forall|m: ImageModel|
                m.wf() && m.dimensions.0 >= 1 && m.dimensions.1 >= 1 && (#[trigger] json_of(m))
                    == v@ implies false by {
                doc_hyp(v@, m);
                assert(sub_at(v@, p1 as int, dec(m.dimensions.0 as nat)));
                assert(w == m.dimensions.0);
                assert(sub_at(v@, p2p as int, dec(m.dimensions.1 as nat)));
                assert(h == m.dimensions.1);
                assert(sub_at(v@, p4 as int, dec(m.length as nat)));
                assert(len32 == m.length);
                assert(sub_at(v@, p6 as int, tail_framelist(m.frames)));
            }
        }
        return None;
    }
    let ghost gfs = frames.deep_view();
    let r = Some((w, h, len32, frames));
    proof {
        assert forall|m: ImageModel|
            m.wf() && m.dimensions.0 >= 1 && m.dimensions.1 >= 1 && (#[trigger] json_of(m)) == v@
            implies (r matches Some(t) && t.0 == m.dimensions.0 && t.1 == m.dimensions.1 && t.2
            == m.length && t.3.deep_view() == m.frames) by {
            doc_hyp(v@, m);
            assert(sub_at(v@, p1 as int, dec(m.dimensions.0 as nat)));
            assert(sub_at(v@, p2p as int, dec(m.dimensions.1 as nat)));
            assert(sub_at(v@, p4 as int, dec(m.length as nat)));
            assert(sub_at(v@, p6 as int, tail_framelist(m.frames)));
            assert(gfs == Seq::<FrameModel>::empty() + m.frames);
            assert(Seq::<FrameModel>::empty() + m.frames =~= m.frames);
        }
    }
    r
}

impl RgbaImageData {
    /// Decodes the canonical JSON document back into the model.
    ///
    /// Exactly the encodings of well-formed models with non-zero dimensions
    /// are accepted, and each decodes to the model that produced it; together
    /// with [`RgbaImageData::to_json_bytes`] this is the round trip, stated
    /// by the second clause. Anything else is rejected as `Malformed`.
    #[verifier::rlimit(100)]
    #[verifier::spinoff_prover]
    pub fn from_json_bytes(v: &Vec<u8>) -> (r: Result<RgbaImageData, FormatError>)
        ensures
            r matches Ok(d) ==> d@.wf() && d@.dimensions.0 >= 1 && d@.dimensions.1 >= 1
                && json_of(d@) == v@,
            forall|m: ImageModel|
                m.wf() && m.dimensions.0 >= 1 && m.dimensions.1 >= 1 && (#[trigger] json_of(m))
                    == v@ ==> (r matches Ok(d) && d@ == m),
    {
        let pd = parse_doc(v);
        if pd.is_none() {
            return Err(FormatError::Malformed);
        }
        let (w, h, len32, frames) = pd.unwrap();
        let ghost gfs = frames.deep_view();
        proof {
            assert forall|m: ImageModel|
                m.wf() && m.dimensions.0 >= 1 && m.dimensions.1 >= 1 && (#[trigger] json_of(m))
                    == v@ implies (w == m.dimensions.0 && h == m.dimensions.1 && len32 == m.length
                && gfs == m.frames) by {
            }
        }
        let fcount = frames.len();
        if fcount == 0 || w == 0 || h == 0 || (len32 as usize) != fcount {
            return Err(FormatError::Malformed);
        }
        let s0 = frames[0].samples();
        if s0.len() == 0 {
            proof {
                assert forall|m: ImageModel|
                    m.wf() && m.dimensions.0 >= 1 && m.dimensions.1 >= 1 && (#[trigger] json_of(m))
                        == v@ implies false by {
                    assert(gfs == m.frames);
                    assert(gfs[0] == frames@[0].deep_view());
                    assert(m.frames[0].pixels.len() == m.dimensions.0 * m.dimensions.1);
                    assert(m.dimensions.0 as int * m.dimensions.1 as int >= 1) by (nonlinear_arith)
                        requires
                            m.dimensions.0 >= 1,
                            m.dimensions.1 >= 1,
                    ;
                }
            }
            return Err(FormatError::Malformed);
        }
        let arity = s0[0].len();
        proof {
            assert(s0.deep_view()[0].len() == arity);
            assert(s0.deep_view() == gfs[0].pixels);
        }
        if !(arity == 3 || arity == 4) {
            proof {
                assert forall|m: ImageModel|
                    m.wf() && m.dimensions.0 >= 1 && m.dimensions.1 >= 1 && (#[trigger] json_of(m))
                        == v@ implies false by {
                    assert(gfs == m.frames);
                    assert(m.frames[0].pixels[0].len() == channel_count(m.mode));
                }
            }
            return Err(FormatError::Malformed);
        }
        let mode = if arity == 3 {
            ChannelMode::Rgb
        } else {
            ChannelMode::Rgba
        };
        let w64: u64 = w as u64;
        let h64: u64 = h as u64;
        let ghost area: int = w as int * h as int;
        proof {
            assert(w as int * h as int <= 0xffff_fffe_0000_0001int) by (nonlinear_arith)
                requires
                    w <= 0xffff_ffffu32,
                    h <= 0xffff_ffffu32,
            ;
            assert(w64 as int * h64 as int == w as int * h as int);
        }
        let prod: u64 = w64 * h64;
        let mut k: usize = 0;
        while k < fcount
            invariant
                fcount == frames@.len(),
                gfs == frames.deep_view(),
                gfs.len() == fcount,
                0 <= k <= fcount,
                prod == area,
                area == w as int * h as int,
                forall|m: ImageModel|
                    m.wf() && m.dimensions.0 >= 1 && m.dimensions.1 >= 1 && (#[trigger] json_of(m))
                        == v@ ==> (w == m.dimensions.0 && h == m.dimensions.1 && len32 == m.length
                        && gfs == m.frames),
                0 < gfs.len() && gfs[0].pixels.len() >= 1 && gfs[0].pixels[0].len() == arity,
                forall|kk: int| 0 <= kk < k ==> (#[trigger] gfs[kk]).pixels.len() == area,
                forall|kk: int, qq: int|
                    0 <= kk < k && 0 <= qq < gfs[kk].pixels.len()
                        ==> (#[trigger] gfs[kk].pixels[qq]).len() == arity,
            decreases fcount - k,
        {
            let sk = frames[k].samples();
            proof {
                assert(sk.deep_view() == gfs[k as int].pixels);
            }
            if (sk.len() as u64) != prod {
                proof {
                    assert forall|m: ImageModel|
                        m.wf() && m.dimensions.0 >= 1 && m.dimensions.1 >= 1 && (
                        #[trigger] json_of(m)) == v@ implies false by {
                        assert(gfs == m.frames);
                        assert(m.frames[k as int].pixels.len() == m.dimensions.0 * m.dimensions.1);
                        assert(sk@.len() == area);
                    }
                }
                return Err(FormatError::Malformed);
            }
            let mut q: usize = 0;
            while q < sk.len()
                invariant
                    sk.deep_view() == gfs[k as int].pixels,
                    0 <= k < fcount,
                    gfs.len() == fcount,
                    fcount == frames@.len(),
                    0 <= q <= sk@.len(),
                    sk@.len() == gfs[k as int].pixels.len(),
                    forall|m: ImageModel|
                        m.wf() && m.dimensions.0 >= 1 && m.dimensions.1 >= 1 && (
                        #[trigger] json_of(m)) == v@ ==> (w == m.dimensions.0 && h == m.dimensions.1
                            && len32 == m.length && gfs == m.frames),
                    0 < gfs.len() && gfs[0].pixels.len() >= 1 && gfs[0].pixels[0].len() == arity,
                    forall|qq: int|
                        0 <= qq < q ==> (#[trigger] gfs[k as int].pixels[qq]).len() == arity,
                decreases sk@.len() - q,
            {
                if sk[q].len() != arity {
                    proof {
                        assert forall|m: ImageModel|
                            m.wf() && m.dimensions.0 >= 1 && m.dimensions.1 >= 1 && (
                            #[trigger] json_of(m)) == v@ implies false by {
                            assert(gfs == m.frames);
                            assert(m.frames[k as int].pixels[q as int].len() == channel_count(
                                m.mode,
                            ));
                            assert(m.frames[0].pixels[0].len() == channel_count(m.mode));
                            assert(sk.deep_view()[q as int].len() != arity);
                        }
                    }
                    return Err(FormatError::Malformed);
                }
                proof {
                    assert(sk.deep_view()[q as int].len() == arity);
                }
                q = q + 1;
            }
            k = k + 1;
        }
        let d = RgbaImageData::assemble((w, h), len32, frames, mode);
        proof {
            assert(d@.wf()) by {
                assert(d@.frames == gfs);
                assert(channel_count(mode) == arity);
                assert(d@.dimensions.0 * d@.dimensions.1 == area);
            }
        }
        let ser = d.to_json_bytes();
        if bytes_eq(&ser, v) {
            proof {
                assert forall|m: ImageModel|
                    m.wf() && m.dimensions.0 >= 1 && m.dimensions.1 >= 1 && (#[trigger] json_of(m))
                        == v@ implies d@ == m by {
                    assert(w == m.dimensions.0 && h == m.dimensions.1 && len32 == m.length && gfs
                        == m.frames);
                    assert(m.dimensions == (m.dimensions.0, m.dimensions.1));
                    assert(m.frames[0].pixels[0].len() == channel_count(m.mode));
                    assert(channel_count(m.mode) == arity);
                    assert(d@.mode == m.mode) by {
                        if arity == 3 {
                            assert(channel_count(m.mode) == 3);
                        } else {
                            assert(channel_count(m.mode) == 4);
                        }
                    }
                    assert(d@ =~= m);
                }
            }
            Ok(d)
        } else {
            proof {
                assert forall|m: ImageModel|
                    m.wf() && m.dimensions.0 >= 1 && m.dimensions.1 >= 1 && (#[trigger] json_of(m))
                        == v@ implies false by {
                    assert(w == m.dimensions.0 && h == m.dimensions.1 && len32 == m.length && gfs
                        == m.frames);
                    assert(m.dimensions == (m.dimensions.0, m.dimensions.1));
                    assert(m.frames[0].pixels[0].len() == channel_count(m.mode));
                    assert(channel_count(m.mode) == arity);
                    assert(d@.mode == m.mode) by {
                        if arity == 3 {
                            assert(channel_count(m.mode) == 3);
                        } else {
                            assert(channel_count(m.mode) == 4);
                        }
                    }
                    assert(d@ =~= m);
                    assert(ser@ == json_of(m));
                }
            }
            Err(FormatError::Malformed)
        }
    }
}

} // verus!
