//! The PPM (Portable Pixmap) decoder: comment and whitespace
//! normalization, header token extraction, and pixel sample extraction for
//! the ASCII (P3) and raw binary (P6) variants, with depth promotion.

use vstd::prelude::*;
use crate::bitmap::{
    BitmapData, BitmapView, DecodeError, HeaderField, Image, buffer_len_ok, pixel_value,
    write_buffer_to_jpeg, has_data,
};

verus! {

/// A byte that `char::is_whitespace` accepts when the byte is widened to a
/// Latin-1 code point: tab, line feed, vertical tab, form feed, carriage
/// return, space, next line (0x85) and no-break space (0xA0).
pub open spec fn is_ws_byte(b: u8) -> bool {
    b == 9 || b == 10 || b == 11 || b == 12 || b == 13 || b == 32 || b == 133 || b == 160
}

/// Decides whether a byte separates tokens, exactly as `is_ws_byte` says.
pub fn is_whitespace_byte(b: u8) -> (r: bool)
    ensures
        r == is_ws_byte(b),
{
    b == 9 || b == 10 || b == 11 || b == 12 || b == 13 || b == 32 || b == 133 || b == 160
}

/// The PPM variant: ASCII decimal samples (P3), raw binary samples (P6),
/// or not yet determined.
#[derive(Clone, Copy, Debug, PartialEq, Eq, Structural)]
pub enum PPMVer {
    P3,
    P6,
    Absent,
}

/// The state of the normalization pass: whether the scan is inside a
/// `#`-comment, whether the previous byte was whitespace, and how many
/// whitespace-delimited header divisions have been completed so far.
pub struct NormState {
    pub commented: bool,
    pub last_ws: bool,
    pub divs: nat,
}

/// The state the normalization pass starts in.
pub open spec fn norm_init() -> NormState {
    NormState { commented: false, last_ws: false, divs: 0 }
}

/// For the raw binary variant, once the four header tokens are complete
/// the scan stands in the fifth header division — the pixel data — and
/// every further byte passes through unmodified, so that raw bytes that
/// look like `#` or whitespace survive untouched.
pub open spec fn pass_through(p6: bool, st: NormState) -> bool {
    p6 && st.divs >= 4
}

/// One step of the normalization state machine.
pub open spec fn norm_step(p6: bool, st: NormState, b: u8) -> NormState {
    if pass_through(p6, st) {
        st
    } else {
        let commented = st.commented || b == 35;
        NormState {
            commented: if b == 10 {
                false
            } else {
                commented
            },
            last_ws: is_ws_byte(b),
            divs: if is_ws_byte(b) && !st.last_ws && !commented {
                st.divs + 1
            } else {
                st.divs
            },
        }
    }
}

/// Whether the byte survives normalization: everything does once the pass
/// has stopped; before that, comment bytes are dropped and whitespace runs
/// are collapsed to their first byte.
pub open spec fn norm_keep(p6: bool, st: NormState, b: u8) -> bool {
    pass_through(p6, st) || (!(st.commented || b == 35) && !(is_ws_byte(b) && st.last_ws))
}

/// The state after running the machine over `s`, starting from `st`.
pub open spec fn norm_state_from(p6: bool, st: NormState, s: Seq<u8>) -> NormState
    decreases s.len(),
{
    if s.len() == 0 {
        st
    } else {
        norm_step(p6, norm_state_from(p6, st, s.drop_last()), s.last())
    }
}

/// The bytes of `s` that survive normalization, starting from `st`.
pub open spec fn normalize_from(p6: bool, st: NormState, s: Seq<u8>) -> Seq<u8>
    decreases s.len(),
{
    if s.len() == 0 {
        Seq::empty()
    } else {
        let pre = normalize_from(p6, st, s.drop_last());
        if norm_keep(p6, norm_state_from(p6, st, s.drop_last()), s.last()) {
            pre.push(s.last())
        } else {
            pre
        }
    }
}

/// The single left-to-right filter over the whole input.
pub open spec fn normalize(p6: bool, s: Seq<u8>) -> Seq<u8> {
    normalize_from(p6, norm_init(), s)
}

/// Runs the normalization pass over the input, into one fresh buffer.
pub fn normalize_buffer(input: &Vec<u8>, p6: bool) -> (out: Vec<u8>)
    ensures
        out@ == normalize(p6, input@),
{
    let n = input.len();
    let mut out: Vec<u8> = Vec::new();
    let mut commented = false;
    let mut last_ws = false;
    let mut divs: usize = 0;
    let mut i: usize = 0;
    while i < n
        invariant
            n == input@.len(),
            i <= n,
            divs <= i,
            out@ == normalize(p6, input@.take(i as int)),
            (NormState { commented, last_ws, divs: divs as nat }) == norm_state_from(
                p6,
                norm_init(),
                input@.take(i as int),
            ),
        decreases n - i,
    {
        proof {
            assert(input@.take(i + 1).drop_last() =~= input@.take(i as int));
            assert(input@.take(i + 1).last() == input@[i as int]);
        }
        let b = input[i];
        if p6 && divs >= 4 {
            out.push(b);
        } else {
            let ws = is_whitespace_byte(b);
            let commented_now = commented || b == 35;
            let keep = !commented_now && !(ws && last_ws);
            if ws && !last_ws && !commented_now {
                divs = divs + 1;
            }
            if keep {
                out.push(b);
            }
            commented = if b == 10 {
                false
            } else {
                commented_now
            };
            last_ws = ws;
        }
        i = i + 1;
    }
    proof {
        assert(input@.take(n as int) =~= input@);
    }
    out
}

/// The index of the first whitespace byte of `s` at or after `i`, or the
/// length of `s` when there is none.
pub open spec fn ws_index_from(s: Seq<u8>, i: int) -> int
    decreases s.len() - i when 0 <= i <= s.len()
{
    if i >= s.len() {
        i
    } else if is_ws_byte(s[i]) {
        i
    } else {
        ws_index_from(s, i + 1)
    }
}

/// A whitespace-terminated token begins at `p`.
pub open spec fn has_token(s: Seq<u8>, p: int) -> bool {
    ws_index_from(s, p) < s.len()
}

/// The token at `p`: the bytes up to the next whitespace byte.
pub open spec fn token_at(s: Seq<u8>, p: int) -> Seq<u8> {
    s.subrange(p, ws_index_from(s, p))
}

/// The position just past the whitespace byte that ends the token at `p`.
pub open spec fn pos_after(s: Seq<u8>, p: int) -> int {
    ws_index_from(s, p) + 1
}

/// An ASCII decimal digit.
pub open spec fn is_digit(b: u8) -> bool {
    48 <= b && b <= 57
}

/// Every byte of `s` is a decimal digit.
pub open spec fn all_digits(s: Seq<u8>) -> bool {
    forall|i: int| 0 <= i < s.len() ==> is_digit(#[trigger] s[i])
}

/// The value of a digit string read left to right.
pub open spec fn digits_value(s: Seq<u8>) -> int
    decreases s.len(),
{
    if s.len() == 0 {
        0
    } else {
        digits_value(s.drop_last()) * 10 + (s.last() - 48)
    }
}

/// The token is a non-negative decimal integer no larger than `bound`.
pub open spec fn token_parses(s: Seq<u8>, bound: int) -> bool {
    s.len() > 0 && all_digits(s) && digits_value(s) <= bound
}

/// A digit string has a non-negative value.
pub proof fn lemma_digits_value_nonneg(s: Seq<u8>)
    requires
        all_digits(s),
    ensures
        digits_value(s) >= 0,
    decreases s.len(),
{
    if s.len() > 0 {
        assert(all_digits(s.drop_last())) by {
            assert(forall|i: int|
                0 <= i < s.drop_last().len() ==> s.drop_last()[i] == s[i]);
        }
        lemma_digits_value_nonneg(s.drop_last());
    }
}

/// Reading more digits never shrinks the value.
pub proof fn lemma_digits_prefix_le(s: Seq<u8>, j: int)
    requires
        all_digits(s),
        0 <= j <= s.len(),
    ensures
        digits_value(s.subrange(0, j)) <= digits_value(s),
    decreases s.len() - j,
{
    if j == s.len() {
        assert(s.subrange(0, j) =~= s);
    } else {
        lemma_digits_prefix_le(s, j + 1);
        assert(s.subrange(0, j + 1).drop_last() =~= s.subrange(0, j));
        let t = s.subrange(0, j + 1);
        lemma_digits_value_nonneg(s.subrange(0, j));
        assert(digits_value(t) == digits_value(s.subrange(0, j)) * 10 + (s[j] - 48));
        assert(digits_value(s.subrange(0, j)) * 10 >= digits_value(s.subrange(0, j)));
    }
}

/// Finds the first whitespace byte at or after `from`.
fn find_ws(s: &Vec<u8>, from: usize) -> (r: usize)
    requires
        from <= s@.len(),
    ensures
        r as int == ws_index_from(s@, from as int),
        from <= r <= s@.len(),
{
    let n = s.len();
    let mut i = from;
    while i < n
        invariant
            from <= i <= n,
            n == s@.len(),
            ws_index_from(s@, from as int) == ws_index_from(s@, i as int),
        decreases n - i,
    {
        if is_whitespace_byte(s[i]) {
            return i;
        }
        i = i + 1;
    }
    n
}

/// Parses the token `s[start..end]` as a non-negative decimal integer that
/// fits in `usize`, exactly when `token_parses` says it can be done.
fn parse_header_number(s: &Vec<u8>, start: usize, end: usize) -> (r: Option<usize>)
    requires
        start <= end,
        end <= s@.len(),
    ensures
        r is Some <==> token_parses(s@.subrange(start as int, end as int), usize::MAX as int),
        (r matches Some(v) ==> v as int == digits_value(s@.subrange(start as int, end as int))),
{
    let ghost tok = s@.subrange(start as int, end as int);
    if start == end {
        return None;
    }
    let mut acc: usize = 0;
    let mut i = start;
    while i < end
        invariant
            start <= i <= end,
            end <= s@.len(),
            start < end,
            tok == s@.subrange(start as int, end as int),
            all_digits(s@.subrange(start as int, i as int)),
            acc as int == digits_value(s@.subrange(start as int, i as int)),
        decreases end - i,
    {
        proof {
            assert(s@.subrange(start as int, i + 1).drop_last() =~= s@.subrange(
                start as int,
                i as int,
            ));
            assert(s@.subrange(start as int, i + 1).last() == s@[i as int]);
        }
        let b = s[i];
        if b < 48 || b > 57 {
            proof {
                assert(tok[i - start] == s@[i as int]);
                assert(!all_digits(tok));
            }
            return None;
        }
        let d = (b - 48) as usize;
        let shifted = match acc.checked_mul(10) {
            Some(p) => p,
            None => {
                proof {
                    lemma_overflow_means_too_big(s@, start as int, i as int, end as int, 10 * (
                    acc as int) + (d as int));
                }
                return None;
            },
        };
        let next = match shifted.checked_add(d) {
            Some(v) => v,
            None => {
                proof {
                    lemma_overflow_means_too_big(s@, start as int, i as int, end as int, 10 * (
                    acc as int) + (d as int));
                }
                return None;
            },
        };
        acc = next;
        i = i + 1;
    }
    proof {
        assert(s@.subrange(start as int, i as int) =~= tok);
    }
    Some(acc)
}

/// If the digits read so far already exceed `usize`, the whole token does,
/// so it does not parse.
proof fn lemma_overflow_means_too_big(s: Seq<u8>, start: int, i: int, end: int, next_val: int)
    requires
        0 <= start <= i < end <= s.len(),
        all_digits(s.subrange(start, i)),
        is_digit(s[i]),
        next_val == digits_value(s.subrange(start, i)) * 10 + (s[i] - 48),
        next_val > usize::MAX as int,
    ensures
        !token_parses(s.subrange(start, end), usize::MAX as int),
{
    let tok = s.subrange(start, end);
    if all_digits(tok) {
        assert(s.subrange(start, i + 1).drop_last() =~= s.subrange(start, i));
        assert(s.subrange(start, i + 1).last() == s[i]);
        assert(digits_value(s.subrange(start, i + 1)) == next_val);
        assert(tok.subrange(0, i + 1 - start) =~= s.subrange(start, i + 1));
        lemma_digits_prefix_le(tok, i + 1 - start);
    }
}

/// The state of the ASCII sample scan: the samples flushed so far and the
/// value of the digit run being accumulated, if one is open.
pub struct ScanState {
    pub samples: Seq<u16>,
    pub cur: Option<u16>,
}

/// The scan starts with no samples and no open digit run.
pub open spec fn scan_init() -> ScanState {
    ScanState { samples: Seq::empty(), cur: None }
}

/// One step of the ASCII sample scan: whitespace flushes an open digit run
/// as one sample, a digit extends the run, anything else — or a run that
/// leaves the 16-bit range — is malformed pixel data.
pub open spec fn p3_step(st: ScanState, b: u8) -> Option<ScanState> {
    if is_ws_byte(b) {
        match st.cur {
            Some(v) => Some(ScanState { samples: st.samples.push(v), cur: None }),
            None => Some(st),
        }
    } else if is_digit(b) {
        let v0: int = match st.cur {
            Some(v) => v as int,
            None => 0,
        };
        let v = v0 * 10 + (b - 48);
        if v > 65535 {
            None
        } else {
            Some(ScanState { samples: st.samples, cur: Some(v as u16) })
        }
    } else {
        None
    }
}

/// The scan state after running over `s` from `st`, or `None` on the
/// first malformed byte.
pub open spec fn p3_scan_from(st: ScanState, s: Seq<u8>) -> Option<ScanState>
    decreases s.len(),
{
    if s.len() == 0 {
        Some(st)
    } else {
        match p3_scan_from(st, s.drop_last()) {
            Some(st1) => p3_step(st1, s.last()),
            None => None,
        }
    }
}

/// The samples of an ASCII pixel text: the flushed integers, in order of
/// appearance; a digit run not closed by whitespace is never flushed.
pub open spec fn p3_samples(s: Seq<u8>) -> Option<Seq<u16>> {
    match p3_scan_from(scan_init(), s) {
        Some(st) => Some(st.samples),
        None => None,
    }
}

/// Once the scan has failed, no further bytes can repair it.
proof fn lemma_scan_failed_stays_failed(st: ScanState, s: Seq<u8>, j: int)
    requires
        0 <= j <= s.len(),
        p3_scan_from(st, s.subrange(0, j)) is None,
    ensures
        p3_scan_from(st, s) is None,
    decreases s.len() - j,
{
    if j == s.len() {
        assert(s.subrange(0, j) =~= s);
    } else {
        assert(s.subrange(0, j + 1).drop_last() =~= s.subrange(0, j));
        lemma_scan_failed_stays_failed(st, s, j + 1);
    }
}

/// Scans ASCII pixel text into 16-bit samples, exactly as `p3_samples`
/// describes, reporting malformed pixel data as the decode failure policy
/// asks.
fn scan_p3_samples(s: &Vec<u8>, start: usize) -> (r: Result<Vec<u16>, DecodeError>)
    requires
        start <= s@.len(),
    ensures
        (match p3_samples(s@.subrange(start as int, s@.len() as int)) {
            Some(smp) => r is Ok && (r matches Ok(v) ==> v@ == smp),
            None => r == Err::<Vec<u16>, DecodeError>(DecodeError::PixelDataError),
        }),
{
    let ghost rest = s@.subrange(start as int, s@.len() as int);
    let n = s.len();
    let mut samples: Vec<u16> = Vec::new();
    let mut cur: u16 = 0;
    let mut has_cur = false;
    let mut i = start;
    while i < n
        invariant
            start <= i <= n,
            n == s@.len(),
            rest == s@.subrange(start as int, n as int),
            p3_scan_from(scan_init(), rest.subrange(0, i - start)) == Some(
                ScanState {
                    samples: samples@,
                    cur: if has_cur {
                        Some(cur)
                    } else {
                        None
                    },
                },
            ),
        decreases n - i,
    {
        proof {
            assert(rest.subrange(0, i + 1 - start).drop_last() =~= rest.subrange(0, i - start));
            assert(rest.subrange(0, i + 1 - start).last() == s@[i as int]);
        }
        let b = s[i];
        if is_whitespace_byte(b) {
            if has_cur {
                samples.push(cur);
                cur = 0;
                has_cur = false;
            }
        } else if 48 <= b && b <= 57 {
            let v: u32 = (if has_cur {
                cur as u32
            } else {
                0
            }) * 10 + (b - 48) as u32;
            if v > 65535 {
                proof {
                    lemma_scan_failed_stays_failed(scan_init(), rest, i + 1 - start);
                }
                return Err(DecodeError::PixelDataError);
            }
            cur = v as u16;
            has_cur = true;
        } else {
            proof {
                lemma_scan_failed_stays_failed(scan_init(), rest, i + 1 - start);
            }
            return Err(DecodeError::PixelDataError);
        }
        i = i + 1;
    }
    proof {
        assert(rest.subrange(0, n - start) =~= rest);
    }
    Ok(samples)
}

/// The samples a buffer of raw binary pixel data stands for: each byte,
/// widened.
pub open spec fn widen_samples(s: Seq<u8>) -> Seq<u16> {
    s.map_values(|b: u8| b as u16)
}

/// Each 16-bit sample narrowed to its low byte, as depth demotion stores
/// it when the declared maximum fits in 8 bits.
pub open spec fn narrow_samples(s: Seq<u16>) -> Seq<u8> {
    s.map_values(|v: u16| (v % 256) as u8)
}

/// The flat sample sequence of the pixel region, by variant.
pub open spec fn sample_seq(ver: PPMVer, rest: Seq<u8>) -> Option<Seq<u16>> {
    match ver {
        PPMVer::P3 => p3_samples(rest),
        _ => Some(widen_samples(rest)),
    }
}

/// The result of a successful decode: variant, dimensions, declared
/// maximum sample value, and the promoted sample buffer.
pub struct PpmModel {
    pub ver: PPMVer,
    pub width: nat,
    pub height: nat,
    pub max_value: nat,
    pub data: BitmapView,
}

/// A header field position parses as a number that fits in `usize`.
pub open spec fn header_num_ok(s: Seq<u8>, p: int) -> bool {
    has_token(s, p) && token_parses(token_at(s, p), usize::MAX as int)
}

/// The whole decode, as a function of the input bytes: version sniff on
/// the first two raw bytes, normalization, the four header tokens in fixed
/// order, pixel sample extraction by variant, the buffer length check, and
/// depth promotion by the declared maximum value.
pub open spec fn decode_spec(input: Seq<u8>) -> Result<PpmModel, DecodeError> {
    if input.len() < 2 {
        Err(DecodeError::HeaderError(HeaderField::Magic))
    } else {
        let p6 = input[0] == 80 && input[1] == 54;
        let s = normalize(p6, input);
        if !has_token(s, 0) || !(token_at(s, 0) == seq![80u8, 51u8] || token_at(s, 0) == seq![
            80u8,
            54u8,
        ]) {
            Err(DecodeError::HeaderError(HeaderField::Magic))
        } else {
            let ver = if token_at(s, 0) == seq![80u8, 51u8] {
                PPMVer::P3
            } else {
                PPMVer::P6
            };
            let pw = pos_after(s, 0);
            if !header_num_ok(s, pw) {
                Err(DecodeError::HeaderError(HeaderField::Width))
            } else {
                let w = digits_value(token_at(s, pw));
                let ph = pos_after(s, pw);
                if !header_num_ok(s, ph) {
                    Err(DecodeError::HeaderError(HeaderField::Height))
                } else {
                    let h = digits_value(token_at(s, ph));
                    let pm = pos_after(s, ph);
                    if !header_num_ok(s, pm) {
                        Err(DecodeError::HeaderError(HeaderField::MaxValue))
                    } else {
                        let m = digits_value(token_at(s, pm));
                        let pd = pos_after(s, pm);
                        let rest = s.subrange(pd, s.len() as int);
                        match sample_seq(ver, rest) {
                            None => Err(DecodeError::PixelDataError),
                            Some(samp) => if samp.len() != w * h * 3 {
                                Err(DecodeError::PixelDataError)
                            } else {
                                Ok(
                                    PpmModel {
                                        ver,
                                        width: w as nat,
                                        height: h as nat,
                                        max_value: m as nat,
                                        data: if m <= 255 {
                                            BitmapView::U8(narrow_samples(samp))
                                        } else {
                                            BitmapView::U16(samp)
                                        },
                                    },
                                )
                            },
                        }
                    }
                }
            }
        }
    }
}

/// A decoded Portable Pixmap: dimensions, the declared maximum sample
/// value, the variant the file used, and the promoted sample buffer.
pub struct PPM {
    pub width: usize,
    pub height: usize,
    pub max_value: usize,
    pub ver: PPMVer,
    pub buffer: BitmapData,
}

impl PPM {
    /// Decodes a PPM file held in `buffer`. The caller owes a decodable
    /// input; `populate_from_buffer` is the total form.
    pub fn from_buffer(buffer: &mut Vec<u8>) -> (r: PPM)
        requires
            decode_spec(old(buffer)@) is Ok,
        ensures
            final(buffer)@ == old(buffer)@,
            (decode_spec(old(buffer)@) matches Ok(m) ==> r.ver == m.ver && r.width as nat
                == m.width && r.height as nat == m.height && r.max_value as nat == m.max_value
                && r.buffer@ == m.data),
            r.wf(),
            has_data(r.buffer@),
    {
        let mut ppm = PPM {
            width: 0,
            height: 0,
            max_value: 0,
            ver: PPMVer::Absent,
            buffer: BitmapData::Absent,
        };
        let _ = ppm.populate_from_buffer(buffer);
        proof {
            lemma_decode_wf(old(buffer)@);
        }
        ppm
    }

    /// Decodes a PPM file held in `buffer` into `self`, leaving the input
    /// untouched: on success the fields hold exactly what `decode_spec`
    /// says of the input bytes, and on failure `self` is unchanged and the
    /// exact decode error is returned.
    pub fn populate_from_buffer(&mut self, buffer: &mut Vec<u8>) -> (r: Result<(), DecodeError>)
        ensures
            final(buffer)@ == old(buffer)@,
            (match decode_spec(old(buffer)@) {
                Ok(m) => r is Ok && final(self).ver == m.ver && final(self).width as nat == m.width
                    && final(self).height as nat == m.height && final(self).max_value as nat
                    == m.max_value && final(self).buffer@ == m.data && final(self).wf()
                    && has_data(final(self).buffer@),
                Err(e) => r == Err::<(), DecodeError>(e) && *final(self) == *old(self),
            }),
    {
        proof {
            if decode_spec(buffer@) is Ok {
                lemma_decode_wf(buffer@);
            }
        }
        if buffer.len() < 2 {
            return Err(DecodeError::HeaderError(HeaderField::Magic));
        }
        let p6 = buffer[0] == 80 && buffer[1] == 54;
        let s = normalize_buffer(buffer, p6);

        // Magic token.
        let e0 = find_ws(&s, 0);
        if e0 == s.len() {
            return Err(DecodeError::HeaderError(HeaderField::Magic));
        }
        let is_p3_tok = e0 == 2 && s[0] == 80 && s[1] == 51;
        let is_p6_tok = e0 == 2 && s[0] == 80 && s[1] == 54;
        proof {
            assert(token_at(s@, 0) == s@.subrange(0, e0 as int));
            assert(is_p3_tok == (token_at(s@, 0) == seq![80u8, 51u8])) by {
                if e0 == 2 && s@[0] == 80 && s@[1] == 51 {
                    assert(s@.subrange(0, 2) =~= seq![80u8, 51u8]);
                } else if s@.subrange(0, e0 as int) == seq![80u8, 51u8] {
                    assert(s@.subrange(0, e0 as int).len() == 2);
                    assert(s@.subrange(0, 2)[0] == s@[0]);
                    assert(s@.subrange(0, 2)[1] == s@[1]);
                }
            }
            assert(is_p6_tok == (token_at(s@, 0) == seq![80u8, 54u8])) by {
                if e0 == 2 && s@[0] == 80 && s@[1] == 54 {
                    assert(s@.subrange(0, 2) =~= seq![80u8, 54u8]);
                } else if s@.subrange(0, e0 as int) == seq![80u8, 54u8] {
                    assert(s@.subrange(0, e0 as int).len() == 2);
                    assert(s@.subrange(0, 2)[0] == s@[0]);
                    assert(s@.subrange(0, 2)[1] == s@[1]);
                }
            }
        }
        if !(is_p3_tok || is_p6_tok) {
            return Err(DecodeError::HeaderError(HeaderField::Magic));
        }
        let ver = if is_p3_tok {
            PPMVer::P3
        } else {
            PPMVer::P6
        };

        // Width.
        let pw = e0 + 1;
        let ew = find_ws(&s, pw);
        if ew == s.len() {
            return Err(DecodeError::HeaderError(HeaderField::Width));
        }
        let width = match parse_header_number(&s, pw, ew) {
            Some(v) => v,
            None => {
                return Err(DecodeError::HeaderError(HeaderField::Width));
            },
        };

        // Height.
        let ph = ew + 1;
        let eh = find_ws(&s, ph);
        if eh == s.len() {
            return Err(DecodeError::HeaderError(HeaderField::Height));
        }
        let height = match parse_header_number(&s, ph, eh) {
            Some(v) => v,
            None => {
                return Err(DecodeError::HeaderError(HeaderField::Height));
            },
        };

        // Maximum sample value.
        let pm = eh + 1;
        let em = find_ws(&s, pm);
        if em == s.len() {
            return Err(DecodeError::HeaderError(HeaderField::MaxValue));
        }
        let max_value = match parse_header_number(&s, pm, em) {
            Some(v) => v,
            None => {
                return Err(DecodeError::HeaderError(HeaderField::MaxValue));
            },
        };

        // Pixel samples.
        let pd = em + 1;
        let samples: Vec<u16> = match ver {
            PPMVer::P3 => {
                match scan_p3_samples(&s, pd) {
                    Ok(v) => v,
                    Err(e) => {
                        return Err(e);
                    },
                }
            },
            _ => {
                let mut v: Vec<u16> = Vec::new();
                let mut i = pd;
                let n = s.len();
                while i < n
                    invariant
                        pd <= i <= n,
                        n == s@.len(),
                        v@ == widen_samples(s@.subrange(pd as int, i as int)),
                    decreases n - i,
                {
                    proof {
                        assert(s@.subrange(pd as int, i + 1) =~= s@.subrange(
                            pd as int,
                            i as int,
                        ).push(s@[i as int]));
                    }
                    v.push(s[i] as u16);
                    i = i + 1;
                }
                v
            },
        };
        proof {
            assert(s@.subrange(pd as int, s@.len() as int) =~= s@.subrange(
                pd as int,
                s@.len() as int,
            ));
        }

        // The buffer length formula.
        let expected = match width.checked_mul(height) {
            Some(p) => p.checked_mul(3),
            None => None,
        };
        let n_samples = samples.len();
        let len_ok = match expected {
            Some(t) => t == n_samples,
            None => false,
        };
        proof {
            if expected is None {
                assert((width as int) * (height as int) * 3 >= (width as int) * (height as int))
                    by (nonlinear_arith);
            }
        }
        if !len_ok {
            return Err(DecodeError::PixelDataError);
        }

        // Depth promotion.
        if max_value <= 255 {
            let mut bytes: Vec<u8> = Vec::new();
            let mut i: usize = 0;
            let n = samples.len();
            while i < n
                invariant
                    i <= n,
                    n == samples@.len(),
                    bytes@ == narrow_samples(samples@.subrange(0, i as int)),
                decreases n - i,
            {
                proof {
                    assert(samples@.subrange(0, i + 1) =~= samples@.subrange(0, i as int).push(
                        samples@[i as int],
                    ));
                }
                bytes.push((samples[i] % 256) as u8);
                i = i + 1;
            }
            proof {
                assert(samples@.subrange(0, n as int) =~= samples@);
            }
            self.buffer = BitmapData::U8(bytes);
        } else {
            self.buffer = BitmapData::U16(samples);
        }
        self.ver = ver;
        self.width = width;
        self.height = height;
        self.max_value = max_value;
        Ok(())
    }

    /// The declared maximum sample value of the decoded file.
    pub fn get_max_value(&self) -> (r: usize)
        ensures
            r == self.max_value,
    {
        self.max_value
    }
}

impl Image for PPM {
    open spec fn spec_width(&self) -> nat {
        self.width as nat
    }

    open spec fn spec_height(&self) -> nat {
        self.height as nat
    }

    open spec fn spec_buffer(&self) -> BitmapView {
        self.buffer@
    }

    open spec fn wf(&self) -> bool {
        buffer_len_ok(self.buffer@, self.width as nat, self.height as nat)
    }

    proof fn lemma_wf(&self) {
    }

    fn get_width(&self) -> (r: usize) {
        self.width
    }

    fn get_height(&self) -> (r: usize) {
        self.height
    }

    fn get_buffer_ref(&self) -> (r: &BitmapData) {
        &self.buffer
    }

    fn get_pixel_value(&self, x: usize, y: usize) -> (r: (u16, u16, u16)) {
        pixel_value(&self.buffer, self.width, self.height, x, y)
    }

    fn write_to_jpeg(&self, vec: &mut Vec<u8>, quality: u8) -> (r: Result<(), DecodeError>) {
        write_buffer_to_jpeg(&self.buffer, self.width, self.height, vec, quality)
    }
}

/// A successful decode always satisfies the buffer length formula, so a
/// populated `PPM` is well-formed.
pub proof fn lemma_decode_wf(input: Seq<u8>)
    requires
        decode_spec(input) is Ok,
    ensures
        (decode_spec(input) matches Ok(m) ==> buffer_len_ok(m.data, m.width, m.height)
            && has_data(m.data)),
{
    let p6 = input[0] == 80 && input[1] == 54;
    let s = normalize(p6, input);
    let pw = pos_after(s, 0);
    let ph = pos_after(s, pw);
    lemma_digits_value_nonneg(token_at(s, pw));
    lemma_digits_value_nonneg(token_at(s, ph));
}

/// Law: depth promotion goes exactly by the declared maximum value. A
/// maximum that fits in 8 bits yields the narrowed byte buffer; any larger
/// maximum keeps the full 16-bit samples, unchanged.
pub proof fn lemma_promotion(input: Seq<u8>)
    requires
        decode_spec(input) is Ok,
    ensures
        (decode_spec(input) matches Ok(m) ==> (m.max_value <= 255 <==> m.data is U8) && (
        m.max_value > 255 <==> m.data is U16)),
{
    let p6 = input[0] == 80 && input[1] == 54;
    let s = normalize(p6, input);
    let pw = pos_after(s, 0);
    let ph = pos_after(s, pw);
    let pm = pos_after(s, ph);
    lemma_digits_value_nonneg(token_at(s, pm));
}

} // verus!
