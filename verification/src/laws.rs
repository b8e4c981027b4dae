//! The laws of the decoder, proved once and for all inputs: a raw binary
//! file decodes to exactly its payload bytes, an ASCII file decodes to
//! exactly the decimal integers of its text, and comments inserted between
//! header tokens do not change what a file decodes to.

use vstd::prelude::*;
use crate::bitmap::{BitmapView, DecodeError, lemma_pixel_reproduces_bytes, pixel_at_spec};
use crate::ppm::{
    NormState, PPMVer, PpmModel, all_digits, decode_spec, digits_value, is_digit, is_ws_byte,
    lemma_digits_prefix_le, lemma_digits_value_nonneg, norm_init, norm_keep, norm_state_from,
    norm_step, normalize, normalize_from, narrow_samples, p3_samples, p3_scan_from, p3_step,
    pass_through, pos_after, scan_init, token_at, widen_samples, ws_index_from, ScanState,
    has_token,
};

verus! {

/// No byte of `s` is whitespace or the comment mark, so normalization
/// passes every one of them through.
pub open spec fn plain_bytes(s: Seq<u8>) -> bool {
    forall|i: int| 0 <= i < s.len() ==> !is_ws_byte(#[trigger] s[i]) && s[i] != 35
}

/// A digit string is plain.
pub proof fn lemma_digits_plain(s: Seq<u8>)
    requires
        all_digits(s),
    ensures
        plain_bytes(s),
{
    assert forall|i: int| 0 <= i < s.len() implies !is_ws_byte(#[trigger] s[i]) && s[i] != 35 by {
        assert(is_digit(s[i]));
    }
}

/// Running the machine over a concatenation runs it over each part in
/// turn.
pub proof fn lemma_norm_append(p6: bool, st: NormState, a: Seq<u8>, b: Seq<u8>)
    ensures
        norm_state_from(p6, st, a + b) == norm_state_from(p6, norm_state_from(p6, st, a), b),
        normalize_from(p6, st, a + b) == normalize_from(p6, st, a) + normalize_from(
            p6,
            norm_state_from(p6, st, a),
            b,
        ),
    decreases b.len(),
{
    if b.len() == 0 {
        assert(a + b =~= a);
        assert(normalize_from(p6, st, a) + normalize_from(p6, norm_state_from(p6, st, a), b)
            =~= normalize_from(p6, st, a));
    } else {
        lemma_norm_append(p6, st, a, b.drop_last());
        assert((a + b).drop_last() =~= a + b.drop_last());
        assert((a + b).last() == b.last());
    }
}

/// Plain bytes survive normalization unchanged, outside comments.
pub proof fn lemma_norm_plain(p6: bool, st: NormState, s: Seq<u8>)
    requires
        !st.commented,
        !pass_through(p6, st),
        plain_bytes(s),
    ensures
        normalize_from(p6, st, s) == s,
        norm_state_from(p6, st, s) == (NormState {
            commented: false,
            last_ws: if s.len() > 0 {
                false
            } else {
                st.last_ws
            },
            divs: st.divs,
        }),
    decreases s.len(),
{
    if s.len() == 0 {
        assert(norm_state_from(p6, st, s) =~= st);
        assert(st =~= (NormState { commented: false, last_ws: st.last_ws, divs: st.divs }));
    } else {
        assert(plain_bytes(s.drop_last())) by {
            assert(forall|i: int|
                0 <= i < s.drop_last().len() ==> s.drop_last()[i] == s[i]);
        }
        lemma_norm_plain(p6, st, s.drop_last());
        assert(!is_ws_byte(s.last()) && s.last() != 35);
        assert(normalize_from(p6, st, s) =~= s.drop_last().push(s.last()));
        assert(s.drop_last().push(s.last()) =~= s);
    }
}

/// One byte runs the machine one step.
pub proof fn lemma_norm_one(p6: bool, st: NormState, b: u8)
    ensures
        norm_state_from(p6, st, seq![b]) == norm_step(p6, st, b),
        normalize_from(p6, st, seq![b]) == (if norm_keep(p6, st, b) {
            seq![b]
        } else {
            Seq::<u8>::empty()
        }),
{
    assert(seq![b].drop_last() =~= Seq::<u8>::empty());
    assert(seq![b].last() == b);
    assert(norm_state_from(p6, st, Seq::<u8>::empty()) == st);
    assert(normalize_from(p6, st, Seq::<u8>::empty()) =~= Seq::<u8>::empty());
    if norm_keep(p6, st, b) {
        assert(Seq::<u8>::empty().push(b) =~= seq![b]);
    }
}

/// A single whitespace byte after a token is kept and completes one
/// header division.
pub proof fn lemma_norm_ws(p6: bool, st: NormState, b: u8)
    requires
        !st.commented,
        !st.last_ws,
        !pass_through(p6, st),
        is_ws_byte(b),
    ensures
        normalize_from(p6, st, seq![b]) == seq![b],
        norm_state_from(p6, st, seq![b]) == (NormState {
            commented: false,
            last_ws: true,
            divs: st.divs + 1,
        }),
{
    lemma_norm_one(p6, st, b);
}

/// Once the pass has stopped, every byte survives and the state is
/// frozen.
pub proof fn lemma_norm_pass(p6: bool, st: NormState, s: Seq<u8>)
    requires
        pass_through(p6, st),
    ensures
        normalize_from(p6, st, s) == s,
        norm_state_from(p6, st, s) == st,
    decreases s.len(),
{
    if s.len() == 0 {
        assert(normalize_from(p6, st, s) =~= s);
    } else {
        lemma_norm_pass(p6, st, s.drop_last());
        assert(normalize_from(p6, st, s) =~= s.drop_last().push(s.last()));
        assert(s.drop_last().push(s.last()) =~= s);
    }
}

/// Inside a comment, every byte before the closing newline is dropped and
/// only the whitespace flag can move.
proof fn lemma_norm_commented(p6: bool, st: NormState, s: Seq<u8>)
    requires
        st.commented,
        !pass_through(p6, st),
        forall|i: int| 0 <= i < s.len() ==> #[trigger] s[i] != 10,
    ensures
        normalize_from(p6, st, s) == Seq::<u8>::empty(),
        norm_state_from(p6, st, s) == (NormState {
            commented: true,
            last_ws: if s.len() > 0 {
                is_ws_byte(s.last())
            } else {
                st.last_ws
            },
            divs: st.divs,
        }),
    decreases s.len(),
{
    if s.len() == 0 {
        assert(st =~= (NormState { commented: true, last_ws: st.last_ws, divs: st.divs }));
    } else {
        assert(forall|i: int|
            0 <= i < s.drop_last().len() ==> #[trigger] s.drop_last()[i] != 10) by {
            assert(forall|i: int|
                0 <= i < s.drop_last().len() ==> s.drop_last()[i] == s[i]);
        }
        lemma_norm_commented(p6, st, s.drop_last());
        assert(s.last() != 10);
    }
}

/// A whole `#`-comment — the mark, a body free of newlines, and the
/// closing newline — normalizes to nothing, and when it follows a
/// whitespace byte it leaves the state exactly as it found it.
pub proof fn lemma_norm_comment(p6: bool, st: NormState, body: Seq<u8>)
    requires
        !st.commented,
        st.last_ws,
        !pass_through(p6, st),
        forall|i: int| 0 <= i < body.len() ==> #[trigger] body[i] != 10,
    ensures
        normalize_from(p6, st, seq![35u8] + body + seq![10u8]) == Seq::<u8>::empty(),
        norm_state_from(p6, st, seq![35u8] + body + seq![10u8]) == st,
{
    let c = seq![35u8] + body + seq![10u8];
    // The mark.
    lemma_norm_one(p6, st, 35u8);
    let st1 = norm_state_from(p6, st, seq![35u8]);
    assert(st1 == (NormState { commented: true, last_ws: false, divs: st.divs }));
    assert(normalize_from(p6, st, seq![35u8]) =~= Seq::<u8>::empty());
    // The body.
    lemma_norm_commented(p6, st1, body);
    let st2 = norm_state_from(p6, st1, body);
    // The closing newline.
    lemma_norm_one(p6, st2, 10u8);
    let st3 = norm_step(p6, st2, 10u8);
    assert(st3 == (NormState { commented: false, last_ws: true, divs: st.divs }));
    assert(!norm_keep(p6, st2, 10u8));
    assert(normalize_from(p6, st2, seq![10u8]) =~= Seq::<u8>::empty());
    // Chain the three parts.
    lemma_norm_append(p6, st, seq![35u8], body);
    lemma_norm_append(p6, st, seq![35u8] + body, seq![10u8]);
    assert((seq![35u8] + body) + seq![10u8] =~= c);
    assert(st3 =~= st);
    assert(normalize_from(p6, st, c) =~= Seq::<u8>::empty());
}

/// Comment-stripping transparency: inserting a `#`-comment right after
/// any whitespace byte of an ASCII (P3) file leaves the decode unchanged,
/// whatever stands before and after it.
pub proof fn lemma_comment_transparent(prefix: Seq<u8>, body: Seq<u8>, suffix: Seq<u8>)
    requires
        prefix.len() >= 2,
        prefix[0] == 80,
        prefix[1] == 51,
        !(norm_state_from(false, norm_init(), prefix).commented),
        norm_state_from(false, norm_init(), prefix).last_ws,
        forall|i: int| 0 <= i < body.len() ==> #[trigger] body[i] != 10,
    ensures
        decode_spec(prefix + (seq![35u8] + body + seq![10u8]) + suffix) == decode_spec(
            prefix + suffix,
        ),
{
    let c = seq![35u8] + body + seq![10u8];
    let with_c = prefix + c + suffix;
    let without = prefix + suffix;
    let st_p = norm_state_from(false, norm_init(), prefix);

    assert(with_c[0] == 80 && with_c[1] == 51);
    assert(without[0] == 80 && without[1] == 51);
    assert(with_c.len() >= 2 && without.len() >= 2);

    lemma_norm_comment(false, st_p, body);
    lemma_norm_append(false, norm_init(), prefix, c);
    assert(normalize(false, prefix + c) == normalize(false, prefix));
    assert(norm_state_from(false, norm_init(), prefix + c) == st_p);
    lemma_norm_append(false, norm_init(), prefix + c, suffix);
    lemma_norm_append(false, norm_init(), prefix, suffix);
    assert((prefix + c) + suffix =~= with_c);
    assert(normalize(false, with_c) == normalize(false, without));
}

/// A ready-made instance of the transparency law: a comment inserted right
/// after the whitespace byte that ends the P3 magic token leaves the
/// decode of the whole file unchanged.
pub proof fn lemma_comment_after_magic(w1: u8, body: Seq<u8>, rest: Seq<u8>)
    requires
        is_ws_byte(w1),
        forall|i: int| 0 <= i < body.len() ==> #[trigger] body[i] != 10,
    ensures
        decode_spec(
            (seq![80u8, 51u8] + seq![w1]) + (seq![35u8] + body + seq![10u8]) + rest,
        ) == decode_spec((seq![80u8, 51u8] + seq![w1]) + rest),
{
    let magic = seq![80u8, 51u8];
    let prefix = magic + seq![w1];
    assert(plain_bytes(magic)) by {
        assert(magic[0] == 80 && magic[1] == 51);
    }
    lemma_norm_plain(false, norm_init(), magic);
    let st0 = norm_state_from(false, norm_init(), magic);
    lemma_norm_append(false, norm_init(), magic, seq![w1]);
    lemma_norm_ws(false, st0, w1);
    assert(!(norm_state_from(false, norm_init(), prefix).commented));
    assert(norm_state_from(false, norm_init(), prefix).last_ws);
    assert(prefix[0] == 80 && prefix[1] == 51);
    lemma_comment_transparent(prefix, body, rest);
}

/// The first whitespace byte at or after `p` is the one at `e`, when
/// nothing before it is whitespace.
pub proof fn lemma_ws_index(s: Seq<u8>, p: int, e: int)
    requires
        0 <= p <= e < s.len(),
        forall|i: int| p <= i < e ==> !is_ws_byte(#[trigger] s[i]),
        is_ws_byte(s[e]),
    ensures
        ws_index_from(s, p) == e,
    decreases e - p,
{
    if p < e {
        lemma_ws_index(s, p + 1, e);
    }
}

/// The bytes of a raw binary (P6) file: the magic, the three numeric
/// header tokens, four single whitespace separators, and the raw payload.
pub open spec fn p6_bytes(
    tw: Seq<u8>,
    th: Seq<u8>,
    tm: Seq<u8>,
    w1: u8,
    w2: u8,
    w3: u8,
    w4: u8,
    data: Seq<u8>,
) -> Seq<u8> {
    seq![80u8, 54u8] + seq![w1] + tw + seq![w2] + th + seq![w3] + tm + seq![w4] + data
}

/// Law: a raw binary (P6) file whose declared maximum fits in 8 bits and
/// whose payload length matches its header decodes to exactly its payload
/// bytes, at exactly its declared dimensions.
#[verifier::rlimit(100)]
pub proof fn lemma_p6_exact(
    tw: Seq<u8>,
    th: Seq<u8>,
    tm: Seq<u8>,
    w1: u8,
    w2: u8,
    w3: u8,
    w4: u8,
    data: Seq<u8>,
)
    requires
        tw.len() > 0 && all_digits(tw) && digits_value(tw) <= usize::MAX,
        th.len() > 0 && all_digits(th) && digits_value(th) <= usize::MAX,
        tm.len() > 0 && all_digits(tm) && digits_value(tm) <= 255,
        is_ws_byte(w1),
        is_ws_byte(w2),
        is_ws_byte(w3),
        is_ws_byte(w4),
        data.len() == digits_value(tw) * digits_value(th) * 3,
    ensures
        decode_spec(p6_bytes(tw, th, tm, w1, w2, w3, w4, data)) == Ok::<PpmModel, DecodeError>(
            PpmModel {
                ver: PPMVer::P6,
                width: digits_value(tw) as nat,
                height: digits_value(th) as nat,
                max_value: digits_value(tm) as nat,
                data: BitmapView::U8(data),
            },
        ),
        normalize(true, p6_bytes(tw, th, tm, w1, w2, w3, w4, data)) == p6_bytes(
            tw,
            th,
            tm,
            w1,
            w2,
            w3,
            w4,
            data,
        ),
{
    let input = p6_bytes(tw, th, tm, w1, w2, w3, w4, data);
    lemma_digits_value_nonneg(tw);
    lemma_digits_value_nonneg(th);
    lemma_digits_value_nonneg(tm);

    // The normalization pass keeps this file as it is: each header token
    // is plain, each separator completes one division, and the payload
    // stands in the fifth division.
    let a0 = seq![80u8, 54u8];
    let a1 = a0 + seq![w1];
    let a2 = a1 + tw;
    let a3 = a2 + seq![w2];
    let a4 = a3 + th;
    let a5 = a4 + seq![w3];
    let a6 = a5 + tm;
    let a7 = a6 + seq![w4];
    assert(plain_bytes(a0)) by {
        assert(a0[0] == 80 && a0[1] == 54);
    }
    lemma_digits_plain(tw);
    lemma_digits_plain(th);
    lemma_digits_plain(tm);

    let st0 = norm_state_from(true, norm_init(), a0);
    lemma_norm_plain(true, norm_init(), a0);
    assert(st0 == (NormState { commented: false, last_ws: false, divs: 0 as nat }));

    lemma_norm_append(true, norm_init(), a0, seq![w1]);
    lemma_norm_ws(true, st0, w1);
    let st1 = norm_state_from(true, norm_init(), a1);
    assert(st1 == (NormState { commented: false, last_ws: true, divs: 1 as nat }));
    assert(normalize(true, a1) == a0 + seq![w1]);

    lemma_norm_append(true, norm_init(), a1, tw);
    lemma_norm_plain(true, st1, tw);
    let st2 = norm_state_from(true, norm_init(), a2);
    assert(st2 == (NormState { commented: false, last_ws: false, divs: 1 as nat }));
    assert(normalize(true, a2) == a1 + tw);

    lemma_norm_append(true, norm_init(), a2, seq![w2]);
    lemma_norm_ws(true, st2, w2);
    let st3 = norm_state_from(true, norm_init(), a3);
    assert(st3 == (NormState { commented: false, last_ws: true, divs: 2 as nat }));
    assert(normalize(true, a3) == a2 + seq![w2]);

    lemma_norm_append(true, norm_init(), a3, th);
    lemma_norm_plain(true, st3, th);
    let st4 = norm_state_from(true, norm_init(), a4);
    assert(st4 == (NormState { commented: false, last_ws: false, divs: 2 as nat }));
    assert(normalize(true, a4) == a3 + th);

    lemma_norm_append(true, norm_init(), a4, seq![w3]);
    lemma_norm_ws(true, st4, w3);
    let st5 = norm_state_from(true, norm_init(), a5);
    assert(st5 == (NormState { commented: false, last_ws: true, divs: 3 as nat }));
    assert(normalize(true, a5) == a4 + seq![w3]);

    lemma_norm_append(true, norm_init(), a5, tm);
    lemma_norm_plain(true, st5, tm);
    let st6 = norm_state_from(true, norm_init(), a6);
    assert(st6 == (NormState { commented: false, last_ws: false, divs: 3 as nat }));
    assert(normalize(true, a6) == a5 + tm);

    lemma_norm_append(true, norm_init(), a6, seq![w4]);
    lemma_norm_ws(true, st6, w4);
    let st7 = norm_state_from(true, norm_init(), a7);
    assert(st7 == (NormState { commented: false, last_ws: true, divs: 4 as nat }));
    assert(normalize(true, a7) == a6 + seq![w4]);

    lemma_norm_append(true, norm_init(), a7, data);
    lemma_norm_pass(true, st7, data);
    assert(normalize(true, input) == a7 + data);
    assert(normalize(true, input) == input);

    // Version sniff and token extraction walk the unchanged file.
    assert(input[0] == 80 && input[1] == 54);
    let s = normalize(true, input);
    let ltw = tw.len() as int;
    let lth = th.len() as int;
    let ltm = tm.len() as int;

    assert(forall|i: int| 3 <= i < 3 + ltw ==> s[i] == tw[i - 3]);
    assert(forall|i: int| 4 + ltw <= i < 4 + ltw + lth ==> s[i] == th[i - 4 - ltw]);
    assert(forall|i: int| 5 + ltw + lth <= i < 5 + ltw + lth + ltm ==> s[i] == tm[i - 5 - ltw
        - lth]);
    assert(s[2] == w1 && s[3 + ltw] == w2 && s[4 + ltw + lth] == w3 && s[5 + ltw + lth + ltm]
        == w4);

    lemma_ws_index(s, 0, 2);
    assert(has_token(s, 0));
    assert(token_at(s, 0) =~= seq![80u8, 54u8]);
    assert(pos_after(s, 0) == 3);

    lemma_ws_index(s, 3, 3 + ltw);
    assert(token_at(s, 3) =~= tw);
    assert(pos_after(s, 3) == 4 + ltw);

    lemma_ws_index(s, 4 + ltw, 4 + ltw + lth);
    assert(token_at(s, 4 + ltw) =~= th);
    assert(pos_after(s, 4 + ltw) == 5 + ltw + lth);

    lemma_ws_index(s, 5 + ltw + lth, 5 + ltw + lth + ltm);
    assert(token_at(s, 5 + ltw + lth) =~= tm);
    assert(pos_after(s, 5 + ltw + lth) == 6 + ltw + lth + ltm);

    let pd = 6 + ltw + lth + ltm;
    let rest = s.subrange(pd, s.len() as int);
    assert(rest =~= data);

    // The payload widens and narrows back to itself.
    let samp = widen_samples(data);
    assert(samp.len() == data.len());
    assert(narrow_samples(samp) =~= data) by {
        assert(forall|i: int|
            0 <= i < data.len() ==> narrow_samples(samp)[i] == ((data[i] as u16) % 256) as u8);
    }
}

/// The ASCII pixel text for a list of sample tokens: each token followed
/// by one whitespace separator.
pub open spec fn render_samples(toks: Seq<Seq<u8>>, seps: Seq<u8>) -> Seq<u8>
    decreases toks.len(),
{
    if toks.len() == 0 {
        Seq::empty()
    } else {
        toks[0] + seq![seps[0]] + render_samples(toks.drop_first(), seps.drop_first())
    }
}

/// Each sample token is a decimal integer that fits in 16 bits, and each
/// separator is one whitespace byte.
pub open spec fn sample_tokens_ok(toks: Seq<Seq<u8>>, seps: Seq<u8>) -> bool {
    &&& toks.len() == seps.len()
    &&& forall|i: int|
        0 <= i < toks.len() ==> (#[trigger] toks[i]).len() > 0 && all_digits(toks[i])
            && digits_value(toks[i]) <= 65535
    &&& forall|i: int| 0 <= i < seps.len() ==> is_ws_byte(#[trigger] seps[i])
}

/// The integers the tokens stand for, in order of appearance.
pub open spec fn token_values(toks: Seq<Seq<u8>>) -> Seq<u16> {
    toks.map_values(|t: Seq<u8>| digits_value(t) as u16)
}

/// The ASCII sample scan over a concatenation runs over each part in
/// turn.
proof fn lemma_scan_append(st: ScanState, a: Seq<u8>, b: Seq<u8>)
    ensures
        (match p3_scan_from(st, a) {
            Some(st1) => p3_scan_from(st, a + b) == p3_scan_from(st1, b),
            None => p3_scan_from(st, a + b) is None,
        }),
    decreases b.len(),
{
    if b.len() == 0 {
        assert(a + b =~= a);
    } else {
        lemma_scan_append(st, a, b.drop_last());
        assert((a + b).drop_last() =~= a + b.drop_last());
        assert((a + b).last() == b.last());
    }
}

/// Scanning one digit token accumulates exactly its value.
proof fn lemma_scan_token(st: ScanState, t: Seq<u8>)
    requires
        st.cur is None,
        t.len() > 0,
        all_digits(t),
        digits_value(t) <= 65535,
    ensures
        p3_scan_from(st, t) == Some(
            ScanState { samples: st.samples, cur: Some(digits_value(t) as u16) },
        ),
    decreases t.len(),
{
    let d = t.last();
    assert(is_digit(d));
    lemma_digits_value_nonneg(t);
    if t.len() == 1 {
        assert(t.drop_last() =~= Seq::<u8>::empty());
        assert(digits_value(Seq::<u8>::empty()) == 0);
        assert(digits_value(t) == d - 48);
        assert(p3_scan_from(st, t) == p3_step(st, d));
    } else {
        assert(all_digits(t.drop_last())) by {
            assert(forall|i: int|
                0 <= i < t.drop_last().len() ==> t.drop_last()[i] == t[i]);
        }
        lemma_digits_prefix_le(t, t.len() - 1);
        assert(t.subrange(0, t.len() - 1) =~= t.drop_last());
        lemma_digits_value_nonneg(t.drop_last());
        lemma_scan_token(st, t.drop_last());
        let v0 = digits_value(t.drop_last());
        assert(digits_value(t) == v0 * 10 + (d - 48));
        assert((v0 as u16) as int == v0);
        assert(p3_scan_from(st, t) == p3_step(
            ScanState { samples: st.samples, cur: Some(v0 as u16) },
            d,
        ));
    }
}

/// One whitespace byte flushes the open digit run.
proof fn lemma_scan_flush(st: ScanState, b: u8)
    requires
        is_ws_byte(b),
    ensures
        p3_scan_from(st, seq![b]) == (match st.cur {
            Some(v) => Some(ScanState { samples: st.samples.push(v), cur: None }),
            None => Some(st),
        }),
{
    assert(seq![b].drop_last() =~= Seq::<u8>::empty());
    assert(seq![b].last() == b);
    assert(p3_scan_from(st, Seq::<u8>::empty()) == Some(st));
}

/// Scanning a rendered sample list flushes exactly its values, in order.
proof fn lemma_scan_render(st: ScanState, toks: Seq<Seq<u8>>, seps: Seq<u8>)
    requires
        st.cur is None,
        sample_tokens_ok(toks, seps),
    ensures
        p3_scan_from(st, render_samples(toks, seps)) == Some(
            ScanState { samples: st.samples + token_values(toks), cur: None },
        ),
    decreases toks.len(),
{
    if toks.len() == 0 {
        assert(render_samples(toks, seps) =~= Seq::<u8>::empty());
        assert(st.samples + token_values(toks) =~= st.samples);
    } else {
        let t = toks[0];
        let w = seps[0];
        let tail = render_samples(toks.drop_first(), seps.drop_first());
        lemma_scan_token(st, t);
        let st1 = ScanState { samples: st.samples, cur: Some(digits_value(t) as u16) };
        lemma_scan_append(st, t, seq![w]);
        lemma_scan_flush(st1, w);
        let st2 = ScanState {
            samples: st.samples.push(digits_value(t) as u16),
            cur: None,
        };
        assert(p3_scan_from(st, t + seq![w]) == Some(st2));
        lemma_scan_append(st, t + seq![w], tail);
        assert((t + seq![w]) + tail =~= render_samples(toks, seps));
        assert(sample_tokens_ok(toks.drop_first(), seps.drop_first())) by {
            assert(forall|i: int|
                0 <= i < toks.drop_first().len() ==> toks.drop_first()[i] == toks[i + 1]);
            assert(forall|i: int|
                0 <= i < seps.drop_first().len() ==> seps.drop_first()[i] == seps[i + 1]);
        }
        lemma_scan_render(st2, toks.drop_first(), seps.drop_first());
        assert(st2.samples + token_values(toks.drop_first()) =~= st.samples + token_values(
            toks,
        )) by {
            assert(forall|i: int|
                0 <= i < toks.drop_first().len() ==> token_values(toks.drop_first())[i]
                    == token_values(toks)[i + 1]);
            assert(token_values(toks)[0] == digits_value(t) as u16);
        }
    }
}

/// A rendered sample list normalizes to itself: tokens are plain and each
/// separator is a single whitespace byte after a token.
proof fn lemma_norm_render(st: NormState, toks: Seq<Seq<u8>>, seps: Seq<u8>)
    requires
        !st.commented,
        sample_tokens_ok(toks, seps),
    ensures
        normalize_from(false, st, render_samples(toks, seps)) == render_samples(toks, seps),
        !(norm_state_from(false, st, render_samples(toks, seps)).commented),
    decreases toks.len(),
{
    if toks.len() == 0 {
        assert(normalize_from(false, st, render_samples(toks, seps)) =~= render_samples(
            toks,
            seps,
        ));
    } else {
        let t = toks[0];
        let w = seps[0];
        let tail = render_samples(toks.drop_first(), seps.drop_first());
        lemma_digits_plain(t);
        lemma_norm_plain(false, st, t);
        let st1 = norm_state_from(false, st, t);
        lemma_norm_append(false, st, t, seq![w]);
        lemma_norm_ws(false, st1, w);
        let st2 = norm_state_from(false, st, t + seq![w]);
        assert(normalize_from(false, st, t + seq![w]) == t + seq![w]);
        lemma_norm_append(false, st, t + seq![w], tail);
        assert((t + seq![w]) + tail =~= render_samples(toks, seps));
        assert(sample_tokens_ok(toks.drop_first(), seps.drop_first())) by {
            assert(forall|i: int|
                0 <= i < toks.drop_first().len() ==> toks.drop_first()[i] == toks[i + 1]);
            assert(forall|i: int|
                0 <= i < seps.drop_first().len() ==> seps.drop_first()[i] == seps[i + 1]);
        }
        lemma_norm_render(st2, toks.drop_first(), seps.drop_first());
        assert(normalize_from(false, st, render_samples(toks, seps)) =~= render_samples(
            toks,
            seps,
        ));
    }
}

/// The bytes of an ASCII (P3) file: the magic, the three numeric header
/// tokens, four single whitespace separators, and the rendered samples.
pub open spec fn p3_bytes(
    tw: Seq<u8>,
    th: Seq<u8>,
    tm: Seq<u8>,
    w1: u8,
    w2: u8,
    w3: u8,
    w4: u8,
    toks: Seq<Seq<u8>>,
    seps: Seq<u8>,
) -> Seq<u8> {
    seq![80u8, 51u8] + seq![w1] + tw + seq![w2] + th + seq![w3] + tm + seq![w4] + render_samples(
        toks,
        seps,
    )
}

/// Law: an ASCII (P3) file decodes to exactly the decimal integers of its
/// pixel text, in order of appearance, promoted by its declared maximum
/// value.
#[verifier::rlimit(100)]
pub proof fn lemma_p3_exact(
    tw: Seq<u8>,
    th: Seq<u8>,
    tm: Seq<u8>,
    w1: u8,
    w2: u8,
    w3: u8,
    w4: u8,
    toks: Seq<Seq<u8>>,
    seps: Seq<u8>,
)
    requires
        tw.len() > 0 && all_digits(tw) && digits_value(tw) <= usize::MAX,
        th.len() > 0 && all_digits(th) && digits_value(th) <= usize::MAX,
        tm.len() > 0 && all_digits(tm) && digits_value(tm) <= usize::MAX,
        is_ws_byte(w1),
        is_ws_byte(w2),
        is_ws_byte(w3),
        is_ws_byte(w4),
        sample_tokens_ok(toks, seps),
        toks.len() == digits_value(tw) * digits_value(th) * 3,
    ensures
        decode_spec(p3_bytes(tw, th, tm, w1, w2, w3, w4, toks, seps)) == Ok::<
            PpmModel,
            DecodeError,
        >(
            PpmModel {
                ver: PPMVer::P3,
                width: digits_value(tw) as nat,
                height: digits_value(th) as nat,
                max_value: digits_value(tm) as nat,
                data: if digits_value(tm) <= 255 {
                    BitmapView::U8(narrow_samples(token_values(toks)))
                } else {
                    BitmapView::U16(token_values(toks))
                },
            },
        ),
        normalize(false, p3_bytes(tw, th, tm, w1, w2, w3, w4, toks, seps)) == p3_bytes(
            tw,
            th,
            tm,
            w1,
            w2,
            w3,
            w4,
            toks,
            seps,
        ),
{
    let body = render_samples(toks, seps);
    let input = p3_bytes(tw, th, tm, w1, w2, w3, w4, toks, seps);
    lemma_digits_value_nonneg(tw);
    lemma_digits_value_nonneg(th);
    lemma_digits_value_nonneg(tm);

    // The normalization pass keeps this file as it is.
    let a0 = seq![80u8, 51u8];
    let a1 = a0 + seq![w1];
    let a2 = a1 + tw;
    let a3 = a2 + seq![w2];
    let a4 = a3 + th;
    let a5 = a4 + seq![w3];
    let a6 = a5 + tm;
    let a7 = a6 + seq![w4];
    assert(plain_bytes(a0)) by {
        assert(a0[0] == 80 && a0[1] == 51);
    }
    lemma_digits_plain(tw);
    lemma_digits_plain(th);
    lemma_digits_plain(tm);

    let st0 = norm_state_from(false, norm_init(), a0);
    lemma_norm_plain(false, norm_init(), a0);
    lemma_norm_append(false, norm_init(), a0, seq![w1]);
    lemma_norm_ws(false, st0, w1);
    let st1 = norm_state_from(false, norm_init(), a1);
    assert(normalize(false, a1) == a0 + seq![w1]);

    lemma_norm_append(false, norm_init(), a1, tw);
    lemma_norm_plain(false, st1, tw);
    let st2 = norm_state_from(false, norm_init(), a2);
    assert(normalize(false, a2) == a1 + tw);

    lemma_norm_append(false, norm_init(), a2, seq![w2]);
    lemma_norm_ws(false, st2, w2);
    let st3 = norm_state_from(false, norm_init(), a3);
    assert(normalize(false, a3) == a2 + seq![w2]);

    lemma_norm_append(false, norm_init(), a3, th);
    lemma_norm_plain(false, st3, th);
    let st4 = norm_state_from(false, norm_init(), a4);
    assert(normalize(false, a4) == a3 + th);

    lemma_norm_append(false, norm_init(), a4, seq![w3]);
    lemma_norm_ws(false, st4, w3);
    let st5 = norm_state_from(false, norm_init(), a5);
    assert(normalize(false, a5) == a4 + seq![w3]);

    lemma_norm_append(false, norm_init(), a5, tm);
    lemma_norm_plain(false, st5, tm);
    let st6 = norm_state_from(false, norm_init(), a6);
    assert(normalize(false, a6) == a5 + tm);

    lemma_norm_append(false, norm_init(), a6, seq![w4]);
    lemma_norm_ws(false, st6, w4);
    let st7 = norm_state_from(false, norm_init(), a7);
    assert(normalize(false, a7) == a6 + seq![w4]);

    lemma_norm_append(false, norm_init(), a7, body);
    lemma_norm_render(st7, toks, seps);
    assert(normalize(false, input) == a7 + body);
    assert(normalize(false, input) == input);

    // Version sniff and token extraction walk the unchanged file.
    assert(input[0] == 80 && input[1] == 51);
    let s = normalize(false, input);
    let ltw = tw.len() as int;
    let lth = th.len() as int;
    let ltm = tm.len() as int;

    assert(forall|i: int| 3 <= i < 3 + ltw ==> s[i] == tw[i - 3]);
    assert(forall|i: int| 4 + ltw <= i < 4 + ltw + lth ==> s[i] == th[i - 4 - ltw]);
    assert(forall|i: int| 5 + ltw + lth <= i < 5 + ltw + lth + ltm ==> s[i] == tm[i - 5 - ltw
        - lth]);
    assert(s[2] == w1 && s[3 + ltw] == w2 && s[4 + ltw + lth] == w3 && s[5 + ltw + lth + ltm]
        == w4);

    lemma_ws_index(s, 0, 2);
    assert(has_token(s, 0));
    assert(token_at(s, 0) =~= seq![80u8, 51u8]);
    assert(pos_after(s, 0) == 3);

    lemma_ws_index(s, 3, 3 + ltw);
    assert(token_at(s, 3) =~= tw);
    assert(pos_after(s, 3) == 4 + ltw);

    lemma_ws_index(s, 4 + ltw, 4 + ltw + lth);
    assert(token_at(s, 4 + ltw) =~= th);
    assert(pos_after(s, 4 + ltw) == 5 + ltw + lth);

    lemma_ws_index(s, 5 + ltw + lth, 5 + ltw + lth + ltm);
    assert(token_at(s, 5 + ltw + lth) =~= tm);
    assert(pos_after(s, 5 + ltw + lth) == 6 + ltw + lth + ltm);

    let pd = 6 + ltw + lth + ltm;
    let rest = s.subrange(pd, s.len() as int);
    assert(rest =~= body);

    // The sample scan flushes exactly the token values.
    lemma_scan_render(scan_init(), toks, seps);
    assert(scan_init().samples + token_values(toks) =~= token_values(toks));
    assert(p3_samples(body) == Some(token_values(toks)));
    assert(token_values(toks).len() == toks.len());
}

/// One piece of padding that may follow a header separator: a further
/// whitespace byte of a run, or a whole `#`-comment with a newline-free
/// body.
pub enum SepPart {
    Ws(u8),
    Note(Seq<u8>),
}

/// The bytes one padding piece stands for.
pub open spec fn sep_part_bytes(p: SepPart) -> Seq<u8> {
    match p {
        SepPart::Ws(b) => seq![b],
        SepPart::Note(body) => seq![35u8] + body + seq![10u8],
    }
}

/// The bytes of a whole padding run.
pub open spec fn sep_bytes(parts: Seq<SepPart>) -> Seq<u8>
    decreases parts.len(),
{
    if parts.len() == 0 {
        Seq::empty()
    } else {
        sep_part_bytes(parts[0]) + sep_bytes(parts.drop_first())
    }
}

/// Every whitespace piece is a whitespace byte and every comment body is
/// free of newlines.
pub open spec fn sep_ok(parts: Seq<SepPart>) -> bool {
    forall|i: int|
        0 <= i < parts.len() ==> (match #[trigger] parts[i] {
            SepPart::Ws(b) => is_ws_byte(b),
            SepPart::Note(body) => forall|j: int| 0 <= j < body.len() ==> #[trigger] body[j] != 10,
        })
}

/// Right after a whitespace byte, any run of further whitespace bytes and
/// comments normalizes to nothing and leaves the state as it found it.
pub proof fn lemma_norm_sep(p6: bool, st: NormState, parts: Seq<SepPart>)
    requires
        !st.commented,
        st.last_ws,
        !pass_through(p6, st),
        sep_ok(parts),
    ensures
        normalize_from(p6, st, sep_bytes(parts)) == Seq::<u8>::empty(),
        norm_state_from(p6, st, sep_bytes(parts)) == st,
    decreases parts.len(),
{
    if parts.len() == 0 {
        assert(normalize_from(p6, st, sep_bytes(parts)) =~= Seq::<u8>::empty());
    } else {
        let head = sep_part_bytes(parts[0]);
        match parts[0] {
            SepPart::Ws(b) => {
                lemma_norm_one(p6, st, b);
                assert(norm_step(p6, st, b) == st);
                assert(!norm_keep(p6, st, b));
            },
            SepPart::Note(body) => {
                lemma_norm_comment(p6, st, body);
            },
        }
        assert(normalize_from(p6, st, head) == Seq::<u8>::empty());
        assert(norm_state_from(p6, st, head) == st);
        lemma_norm_append(p6, st, head, sep_bytes(parts.drop_first()));
        assert(head + sep_bytes(parts.drop_first()) == sep_bytes(parts));
        assert(sep_ok(parts.drop_first())) by {
            assert(forall|i: int|
                0 <= i < parts.drop_first().len() ==> parts.drop_first()[i] == parts[i + 1]);
        }
        lemma_norm_sep(p6, st, parts.drop_first());
        assert(Seq::<u8>::empty() + Seq::<u8>::empty() =~= Seq::<u8>::empty());
    }
}

/// A raw binary (P6) file whose first three separators carry padding:
/// whitespace runs and comments after the separating whitespace byte. The
/// byte after the maximum value must be single, for the raw payload
/// follows it directly.
pub open spec fn p6_bytes_padded(
    tw: Seq<u8>,
    th: Seq<u8>,
    tm: Seq<u8>,
    w1: u8,
    w2: u8,
    w3: u8,
    w4: u8,
    j1: Seq<SepPart>,
    j2: Seq<SepPart>,
    j3: Seq<SepPart>,
    data: Seq<u8>,
) -> Seq<u8> {
    seq![80u8, 54u8] + seq![w1] + sep_bytes(j1) + tw + seq![w2] + sep_bytes(j2) + th + seq![w3]
        + sep_bytes(j3) + tm + seq![w4] + data
}

/// A padded P6 file normalizes to its canonical form: the padding is
/// dropped and everything else, the raw payload included, survives.
#[verifier::rlimit(100)]
proof fn lemma_p6_padded_norm(
    tw: Seq<u8>,
    th: Seq<u8>,
    tm: Seq<u8>,
    w1: u8,
    w2: u8,
    w3: u8,
    w4: u8,
    j1: Seq<SepPart>,
    j2: Seq<SepPart>,
    j3: Seq<SepPart>,
    data: Seq<u8>,
)
    requires
        tw.len() > 0 && all_digits(tw),
        th.len() > 0 && all_digits(th),
        tm.len() > 0 && all_digits(tm),
        is_ws_byte(w1),
        is_ws_byte(w2),
        is_ws_byte(w3),
        is_ws_byte(w4),
        sep_ok(j1),
        sep_ok(j2),
        sep_ok(j3),
    ensures
        normalize(true, p6_bytes_padded(tw, th, tm, w1, w2, w3, w4, j1, j2, j3, data))
            == p6_bytes(tw, th, tm, w1, w2, w3, w4, data),
{
    let a0 = seq![80u8, 54u8];
    let a1 = a0 + seq![w1];
    let b1 = a1 + sep_bytes(j1);
    let a2 = b1 + tw;
    let a3 = a2 + seq![w2];
    let b2 = a3 + sep_bytes(j2);
    let a4 = b2 + th;
    let a5 = a4 + seq![w3];
    let b3 = a5 + sep_bytes(j3);
    let a6 = b3 + tm;
    let a7 = a6 + seq![w4];
    assert(plain_bytes(a0)) by {
        assert(a0[0] == 80 && a0[1] == 54);
    }
    lemma_digits_plain(tw);
    lemma_digits_plain(th);
    lemma_digits_plain(tm);

    let st0 = norm_state_from(true, norm_init(), a0);
    lemma_norm_plain(true, norm_init(), a0);

    lemma_norm_append(true, norm_init(), a0, seq![w1]);
    lemma_norm_ws(true, st0, w1);
    let st1 = norm_state_from(true, norm_init(), a1);
    assert(st1 == (NormState { commented: false, last_ws: true, divs: 1 as nat }));
    assert(normalize(true, a1) == a0 + seq![w1]);

    lemma_norm_append(true, norm_init(), a1, sep_bytes(j1));
    lemma_norm_sep(true, st1, j1);
    assert(norm_state_from(true, norm_init(), b1) == st1);
    assert(normalize(true, b1) =~= normalize(true, a1));

    lemma_norm_append(true, norm_init(), b1, tw);
    lemma_norm_plain(true, st1, tw);
    let st2 = norm_state_from(true, norm_init(), a2);
    assert(st2 == (NormState { commented: false, last_ws: false, divs: 1 as nat }));
    assert(normalize(true, a2) == normalize(true, b1) + tw);

    lemma_norm_append(true, norm_init(), a2, seq![w2]);
    lemma_norm_ws(true, st2, w2);
    let st3 = norm_state_from(true, norm_init(), a3);
    assert(st3 == (NormState { commented: false, last_ws: true, divs: 2 as nat }));

    lemma_norm_append(true, norm_init(), a3, sep_bytes(j2));
    lemma_norm_sep(true, st3, j2);
    assert(norm_state_from(true, norm_init(), b2) == st3);
    assert(normalize(true, b2) =~= normalize(true, a3));

    lemma_norm_append(true, norm_init(), b2, th);
    lemma_norm_plain(true, st3, th);
    let st4 = norm_state_from(true, norm_init(), a4);
    assert(st4 == (NormState { commented: false, last_ws: false, divs: 2 as nat }));

    lemma_norm_append(true, norm_init(), a4, seq![w3]);
    lemma_norm_ws(true, st4, w3);
    let st5 = norm_state_from(true, norm_init(), a5);
    assert(st5 == (NormState { commented: false, last_ws: true, divs: 3 as nat }));

    lemma_norm_append(true, norm_init(), a5, sep_bytes(j3));
    lemma_norm_sep(true, st5, j3);
    assert(norm_state_from(true, norm_init(), b3) == st5);
    assert(normalize(true, b3) =~= normalize(true, a5));

    lemma_norm_append(true, norm_init(), b3, tm);
    lemma_norm_plain(true, st5, tm);
    let st6 = norm_state_from(true, norm_init(), a6);
    assert(st6 == (NormState { commented: false, last_ws: false, divs: 3 as nat }));

    lemma_norm_append(true, norm_init(), a6, seq![w4]);
    lemma_norm_ws(true, st6, w4);
    let st7 = norm_state_from(true, norm_init(), a7);
    assert(st7 == (NormState { commented: false, last_ws: true, divs: 4 as nat }));

    lemma_norm_append(true, norm_init(), a7, data);
    lemma_norm_pass(true, st7, data);

    let gen = p6_bytes_padded(tw, th, tm, w1, w2, w3, w4, j1, j2, j3, data);
    assert(gen == a7 + data);
    assert(normalize(true, gen) =~= p6_bytes(tw, th, tm, w1, w2, w3, w4, data));
}

/// Law, the general form: any valid raw binary (P6) file — its header
/// separators carrying arbitrary whitespace runs and `#`-comments — whose
/// declared maximum fits in 8 bits and whose payload length matches its
/// header decodes to exactly its payload bytes, at exactly its declared
/// dimensions.
pub proof fn lemma_p6_padded_exact(
    tw: Seq<u8>,
    th: Seq<u8>,
    tm: Seq<u8>,
    w1: u8,
    w2: u8,
    w3: u8,
    w4: u8,
    j1: Seq<SepPart>,
    j2: Seq<SepPart>,
    j3: Seq<SepPart>,
    data: Seq<u8>,
)
    requires
        tw.len() > 0 && all_digits(tw) && digits_value(tw) <= usize::MAX,
        th.len() > 0 && all_digits(th) && digits_value(th) <= usize::MAX,
        tm.len() > 0 && all_digits(tm) && digits_value(tm) <= 255,
        is_ws_byte(w1),
        is_ws_byte(w2),
        is_ws_byte(w3),
        is_ws_byte(w4),
        sep_ok(j1),
        sep_ok(j2),
        sep_ok(j3),
        data.len() == digits_value(tw) * digits_value(th) * 3,
    ensures
        decode_spec(p6_bytes_padded(tw, th, tm, w1, w2, w3, w4, j1, j2, j3, data)) == Ok::<
            PpmModel,
            DecodeError,
        >(
            PpmModel {
                ver: PPMVer::P6,
                width: digits_value(tw) as nat,
                height: digits_value(th) as nat,
                max_value: digits_value(tm) as nat,
                data: BitmapView::U8(data),
            },
        ),
{
    let gen = p6_bytes_padded(tw, th, tm, w1, w2, w3, w4, j1, j2, j3, data);
    let canonical = p6_bytes(tw, th, tm, w1, w2, w3, w4, data);
    lemma_p6_padded_norm(tw, th, tm, w1, w2, w3, w4, j1, j2, j3, data);
    lemma_p6_exact(tw, th, tm, w1, w2, w3, w4, data);
    assert(gen[0] == 80 && gen[1] == 54);
    assert(canonical[0] == 80 && canonical[1] == 54);
    assert(gen.len() >= 2 && canonical.len() >= 2);
    assert(normalize(true, gen) == normalize(true, canonical));
    assert(decode_spec(gen) == decode_spec(canonical));
}

/// Law, the general form: over the image decoded from any valid raw
/// binary (P6) file with an 8-bit maximum — padded header or not — every
/// in-range pixel reproduces exactly the byte triplet of the payload.
pub proof fn lemma_p6_pixel_reproduces(
    tw: Seq<u8>,
    th: Seq<u8>,
    tm: Seq<u8>,
    w1: u8,
    w2: u8,
    w3: u8,
    w4: u8,
    j1: Seq<SepPart>,
    j2: Seq<SepPart>,
    j3: Seq<SepPart>,
    data: Seq<u8>,
    x: nat,
    y: nat,
)
    requires
        tw.len() > 0 && all_digits(tw) && digits_value(tw) <= usize::MAX,
        th.len() > 0 && all_digits(th) && digits_value(th) <= usize::MAX,
        tm.len() > 0 && all_digits(tm) && digits_value(tm) <= 255,
        is_ws_byte(w1),
        is_ws_byte(w2),
        is_ws_byte(w3),
        is_ws_byte(w4),
        sep_ok(j1),
        sep_ok(j2),
        sep_ok(j3),
        data.len() == digits_value(tw) * digits_value(th) * 3,
        x < digits_value(tw),
        y < digits_value(th),
    ensures
        (decode_spec(p6_bytes_padded(tw, th, tm, w1, w2, w3, w4, j1, j2, j3, data)) matches Ok(m)
            ==> pixel_at_spec(m.data, m.width, m.height, x, y) == (
            data[((y * m.width + x) * 3) as int] as u16,
            data[((y * m.width + x) * 3 + 1) as int] as u16,
            data[((y * m.width + x) * 3 + 2) as int] as u16,
        )),
{
    lemma_p6_padded_exact(tw, th, tm, w1, w2, w3, w4, j1, j2, j3, data);
    lemma_digits_value_nonneg(tw);
    lemma_digits_value_nonneg(th);
    lemma_pixel_reproduces_bytes(
        data,
        digits_value(tw) as nat,
        digits_value(th) as nat,
        x,
        y,
    );
}

/// An ASCII (P3) file whose four header separators carry padding:
/// whitespace runs and comments after each separating whitespace byte.
pub open spec fn p3_bytes_padded(
    tw: Seq<u8>,
    th: Seq<u8>,
    tm: Seq<u8>,
    w1: u8,
    w2: u8,
    w3: u8,
    w4: u8,
    j1: Seq<SepPart>,
    j2: Seq<SepPart>,
    j3: Seq<SepPart>,
    j4: Seq<SepPart>,
    toks: Seq<Seq<u8>>,
    seps: Seq<u8>,
) -> Seq<u8> {
    seq![80u8, 51u8] + seq![w1] + sep_bytes(j1) + tw + seq![w2] + sep_bytes(j2) + th + seq![w3]
        + sep_bytes(j3) + tm + seq![w4] + sep_bytes(j4) + render_samples(toks, seps)
}

/// A padded P3 file normalizes to its canonical form.
#[verifier::rlimit(100)]
proof fn lemma_p3_padded_norm(
    tw: Seq<u8>,
    th: Seq<u8>,
    tm: Seq<u8>,
    w1: u8,
    w2: u8,
    w3: u8,
    w4: u8,
    j1: Seq<SepPart>,
    j2: Seq<SepPart>,
    j3: Seq<SepPart>,
    j4: Seq<SepPart>,
    toks: Seq<Seq<u8>>,
    seps: Seq<u8>,
)
    requires
        tw.len() > 0 && all_digits(tw),
        th.len() > 0 && all_digits(th),
        tm.len() > 0 && all_digits(tm),
        is_ws_byte(w1),
        is_ws_byte(w2),
        is_ws_byte(w3),
        is_ws_byte(w4),
        sep_ok(j1),
        sep_ok(j2),
        sep_ok(j3),
        sep_ok(j4),
        sample_tokens_ok(toks, seps),
    ensures
        normalize(false, p3_bytes_padded(tw, th, tm, w1, w2, w3, w4, j1, j2, j3, j4, toks, seps))
            == p3_bytes(tw, th, tm, w1, w2, w3, w4, toks, seps),
{
    let body = render_samples(toks, seps);
    let a0 = seq![80u8, 51u8];
    let a1 = a0 + seq![w1];
    let b1 = a1 + sep_bytes(j1);
    let a2 = b1 + tw;
    let a3 = a2 + seq![w2];
    let b2 = a3 + sep_bytes(j2);
    let a4 = b2 + th;
    let a5 = a4 + seq![w3];
    let b3 = a5 + sep_bytes(j3);
    let a6 = b3 + tm;
    let a7 = a6 + seq![w4];
    let b4 = a7 + sep_bytes(j4);
    assert(plain_bytes(a0)) by {
        assert(a0[0] == 80 && a0[1] == 51);
    }
    lemma_digits_plain(tw);
    lemma_digits_plain(th);
    lemma_digits_plain(tm);

    let st0 = norm_state_from(false, norm_init(), a0);
    lemma_norm_plain(false, norm_init(), a0);

    lemma_norm_append(false, norm_init(), a0, seq![w1]);
    lemma_norm_ws(false, st0, w1);
    let st1 = norm_state_from(false, norm_init(), a1);
    assert(st1 == (NormState { commented: false, last_ws: true, divs: 1 as nat }));

    lemma_norm_append(false, norm_init(), a1, sep_bytes(j1));
    lemma_norm_sep(false, st1, j1);
    assert(norm_state_from(false, norm_init(), b1) == st1);
    assert(normalize(false, b1) =~= normalize(false, a1));

    lemma_norm_append(false, norm_init(), b1, tw);
    lemma_norm_plain(false, st1, tw);
    let st2 = norm_state_from(false, norm_init(), a2);
    assert(st2 == (NormState { commented: false, last_ws: false, divs: 1 as nat }));

    lemma_norm_append(false, norm_init(), a2, seq![w2]);
    lemma_norm_ws(false, st2, w2);
    let st3 = norm_state_from(false, norm_init(), a3);
    assert(st3 == (NormState { commented: false, last_ws: true, divs: 2 as nat }));

    lemma_norm_append(false, norm_init(), a3, sep_bytes(j2));
    lemma_norm_sep(false, st3, j2);
    assert(norm_state_from(false, norm_init(), b2) == st3);
    assert(normalize(false, b2) =~= normalize(false, a3));

    lemma_norm_append(false, norm_init(), b2, th);
    lemma_norm_plain(false, st3, th);
    let st4 = norm_state_from(false, norm_init(), a4);
    assert(st4 == (NormState { commented: false, last_ws: false, divs: 2 as nat }));

    lemma_norm_append(false, norm_init(), a4, seq![w3]);
    lemma_norm_ws(false, st4, w3);
    let st5 = norm_state_from(false, norm_init(), a5);
    assert(st5 == (NormState { commented: false, last_ws: true, divs: 3 as nat }));

    lemma_norm_append(false, norm_init(), a5, sep_bytes(j3));
    lemma_norm_sep(false, st5, j3);
    assert(norm_state_from(false, norm_init(), b3) == st5);
    assert(normalize(false, b3) =~= normalize(false, a5));

    lemma_norm_append(false, norm_init(), b3, tm);
    lemma_norm_plain(false, st5, tm);
    let st6 = norm_state_from(false, norm_init(), a6);
    assert(st6 == (NormState { commented: false, last_ws: false, divs: 3 as nat }));

    lemma_norm_append(false, norm_init(), a6, seq![w4]);
    lemma_norm_ws(false, st6, w4);
    let st7 = norm_state_from(false, norm_init(), a7);
    assert(st7 == (NormState { commented: false, last_ws: true, divs: 4 as nat }));

    lemma_norm_append(false, norm_init(), a7, sep_bytes(j4));
    lemma_norm_sep(false, st7, j4);
    assert(norm_state_from(false, norm_init(), b4) == st7);
    assert(normalize(false, b4) =~= normalize(false, a7));

    lemma_norm_append(false, norm_init(), b4, body);
    lemma_norm_render(st7, toks, seps);

    let gen = p3_bytes_padded(tw, th, tm, w1, w2, w3, w4, j1, j2, j3, j4, toks, seps);
    assert(gen == b4 + body);
    assert(normalize(false, gen) =~= p3_bytes(tw, th, tm, w1, w2, w3, w4, toks, seps));
}

/// Law, the general form: any valid ASCII (P3) file — its header
/// separators carrying arbitrary whitespace runs and `#`-comments —
/// decodes to exactly the decimal integers of its pixel text, in order of
/// appearance, promoted by its declared maximum value. In particular the
/// commented header decodes identically to the comment-free one.
pub proof fn lemma_p3_padded_exact(
    tw: Seq<u8>,
    th: Seq<u8>,
    tm: Seq<u8>,
    w1: u8,
    w2: u8,
    w3: u8,
    w4: u8,
    j1: Seq<SepPart>,
    j2: Seq<SepPart>,
    j3: Seq<SepPart>,
    j4: Seq<SepPart>,
    toks: Seq<Seq<u8>>,
    seps: Seq<u8>,
)
    requires
        tw.len() > 0 && all_digits(tw) && digits_value(tw) <= usize::MAX,
        th.len() > 0 && all_digits(th) && digits_value(th) <= usize::MAX,
        tm.len() > 0 && all_digits(tm) && digits_value(tm) <= usize::MAX,
        is_ws_byte(w1),
        is_ws_byte(w2),
        is_ws_byte(w3),
        is_ws_byte(w4),
        sep_ok(j1),
        sep_ok(j2),
        sep_ok(j3),
        sep_ok(j4),
        sample_tokens_ok(toks, seps),
        toks.len() == digits_value(tw) * digits_value(th) * 3,
    ensures
        decode_spec(p3_bytes_padded(tw, th, tm, w1, w2, w3, w4, j1, j2, j3, j4, toks, seps))
            == decode_spec(p3_bytes(tw, th, tm, w1, w2, w3, w4, toks, seps)),
        decode_spec(p3_bytes_padded(tw, th, tm, w1, w2, w3, w4, j1, j2, j3, j4, toks, seps))
            == Ok::<PpmModel, DecodeError>(
            PpmModel {
                ver: PPMVer::P3,
                width: digits_value(tw) as nat,
                height: digits_value(th) as nat,
                max_value: digits_value(tm) as nat,
                data: if digits_value(tm) <= 255 {
                    BitmapView::U8(narrow_samples(token_values(toks)))
                } else {
                    BitmapView::U16(token_values(toks))
                },
            },
        ),
{
    let gen = p3_bytes_padded(tw, th, tm, w1, w2, w3, w4, j1, j2, j3, j4, toks, seps);
    let canonical = p3_bytes(tw, th, tm, w1, w2, w3, w4, toks, seps);
    lemma_p3_padded_norm(tw, th, tm, w1, w2, w3, w4, j1, j2, j3, j4, toks, seps);
    lemma_p3_exact(tw, th, tm, w1, w2, w3, w4, toks, seps);
    assert(gen[0] == 80 && gen[1] == 51);
    assert(canonical[0] == 80 && canonical[1] == 51);
    assert(gen.len() >= 2 && canonical.len() >= 2);
    assert(normalize(false, gen) == normalize(false, canonical));
    assert(decode_spec(gen) == decode_spec(canonical));
}

} // verus!
