use vstd::prelude::*;
use vstd::slice::{slice_index_get, slice_subrange, slice_to_vec};
use crate::frame::{
    frame_model, frame_models, lemma_frame_models, FrameS, RespFrame, MAX_ARRAY_LEN, MAX_BULK_LEN,
};
use crate::digits::{digits_value, push_dec_i64, push_dec_u64};
use crate::wire::{
    crlf, dec, dec_elems, enc, enc_all, lemma_take_line_at, lemma_take_line_none, null_marker,
    parse_int, take_line, DecS, DecSeqS,
};

verus! {

broadcast use {
    vstd::seq::axiom_seq_index_decreases,
    vstd::seq::axiom_seq_subrange_decreases,
    vstd::std_specs::vec::axiom_vec_index_decreases,
    vstd::std_specs::vec::axiom_vec_decreases_to_view,
};

/// What one attempt to read a frame from a buffer yields.
pub enum DecodeOutcome {
    /// A whole frame, and how many leading bytes of the buffer it took.
    Complete(RespFrame, usize),
    /// The buffer holds a proper prefix of a frame; nothing is consumed.
    Incomplete,
    /// The buffer can begin no frame; the connection is beyond recovery.
    Malformed,
}

/// Appends every byte of `s`.
fn push_all(out: &mut Vec<u8>, s: &Vec<u8>)
    ensures
        final(out)@ == old(out)@ + s@,
{
    let mut j: usize = 0;
    while j < s.len()
        invariant
            j <= s@.len(),
            out@ == old(out)@ + s@.take(j as int),
        decreases s@.len() - j,
    {
        out.push(s[j]);
        assert(out@ =~= old(out)@ + s@.take(j as int + 1));
        j = j + 1;
    }
    assert(s@.take(j as int) =~= s@);
}

/// Appends the line terminator.
fn push_crlf(out: &mut Vec<u8>)
    ensures
        final(out)@ == old(out)@ + crlf(),
{
    out.push(13);
    out.push(10);
    assert(out@ =~= old(out)@ + crlf());
}

/// Appends the canonical wire bytes of `f`.
fn encode_into(f: &RespFrame, out: &mut Vec<u8>)
    ensures
        final(out)@ == old(out)@ + enc(f@),
    decreases f,
{
    match f {
        RespFrame::Simple(s) => {
            out.push(43);
            push_all(out, s);
            push_crlf(out);
            assert(out@ =~= old(out)@ + enc(f@));
        },
        RespFrame::Error(s) => {
            out.push(45);
            push_all(out, s);
            push_crlf(out);
            assert(out@ =~= old(out)@ + enc(f@));
        },
        RespFrame::Integer(i) => {
            out.push(58);
            push_dec_i64(out, *i);
            push_crlf(out);
            assert(out@ =~= old(out)@ + enc(f@));
        },
        RespFrame::Bulk(b) => {
            out.push(36);
            push_dec_u64(out, b.len() as u64);
            push_crlf(out);
            push_all(out, b);
            push_crlf(out);
            assert(out@ =~= old(out)@ + enc(f@));
        },
        RespFrame::NullBulk => {
            out.push(36);
            out.push(45);
            out.push(49);
            push_crlf(out);
            assert(out@ =~= old(out)@ + enc(f@));
        },
        RespFrame::Array(es) => {
            out.push(42);
            push_dec_u64(out, es.len() as u64);
            push_crlf(out);
            let ghost head = out@;
            let mut k: usize = 0;
            proof {
                lemma_frame_models(es@);
            }
            while k < es.len()
                invariant
                    *f == RespFrame::Array(*es),
                    k <= es@.len(),
                    out@ == head + enc_all(frame_models(es@).take(k as int)),
                    frame_models(es@).len() == es@.len(),
                    forall|i: int| 0 <= i < es@.len() ==> frame_models(es@)[i] == frame_model(
                        #[trigger] es@[i],
                    ),
                decreases es@.len() - k,
            {
                proof {
                    assert(decreases_to!(*f => f->Array_0));
                    assert(f->Array_0 == *es);
                    assert(decreases_to!(*es => es@));
                    assert(decreases_to!(es@ => es@[k as int]));
                }
                encode_into(&es[k], out);
                proof {
                    lemma_enc_all_snoc(frame_models(es@), k as int);
                }
                assert(out@ =~= head + enc_all(frame_models(es@).take(k as int + 1)));
                k = k + 1;
            }
            assert(frame_models(es@).take(k as int) =~= frame_models(es@));
            assert(out@ =~= old(out)@ + enc(f@));
        },
        RespFrame::NullArray => {
            out.push(42);
            out.push(45);
            out.push(49);
            push_crlf(out);
            assert(out@ =~= old(out)@ + enc(f@));
        },
    }
}

/// Encoding one more element extends the run's bytes at the back.
proof fn lemma_enc_all_snoc(es: Seq<FrameS>, i: int)
    requires
        0 <= i < es.len(),
    ensures
        enc_all(es.take(i + 1)) == enc_all(es.take(i)) + enc(es[i]),
    decreases i,
{
    if i == 0 {
        assert(es.take(1).drop_first() =~= Seq::<FrameS>::empty());
        assert(es.take(1).first() == es[0]);
        assert(enc_all(Seq::<FrameS>::empty()) =~= Seq::<u8>::empty());
        assert(enc_all(es.take(1)) =~= enc(es[0]) + Seq::<u8>::empty());
        assert(enc(es[0]) + Seq::<u8>::empty() =~= enc(es[0]));
        assert(es.take(0) =~= Seq::<FrameS>::empty());
        assert(enc_all(es.take(0)) + enc(es[0]) =~= enc(es[0]));
    } else {
        let t = es.drop_first();
        lemma_enc_all_snoc(t, i - 1);
        assert(es.take(i + 1).drop_first() =~= t.take(i));
        assert(es.take(i).drop_first() =~= t.take(i - 1));
        assert(t[i - 1] == es[i]);
        assert(enc_all(es.take(i + 1)) == enc(es[0]) + enc_all(t.take(i)));
        assert(enc_all(es.take(i)) == enc(es[0]) + enc_all(t.take(i - 1)));
        assert(enc(es[0]) + (enc_all(t.take(i - 1)) + enc(es[i])) =~= (enc(es[0]) + enc_all(
            t.take(i - 1),
        )) + enc(es[i]));
    }
}

impl RespFrame {
    /// The canonical wire bytes of this frame. Total: every frame
    /// encodes.
    pub fn encode(&self) -> (out: Vec<u8>)
        ensures
            out@ == enc(self@),
    {
        let mut out: Vec<u8> = Vec::new();
        encode_into(self, &mut out);
        out
    }

    /// Reads one frame from the front of `buf`. On `Complete` the frame
    /// took exactly the returned count of leading bytes; on `Incomplete`
    /// nothing is consumed and the caller may retry with more bytes; on
    /// `Malformed` the bytes can begin no frame.
    pub fn decode(buf: &[u8]) -> (r: DecodeOutcome)
        ensures
            match r {
                DecodeOutcome::Complete(f, used) => dec(buf@) == DecS::Done(f@, used as int) && 1
                    <= used <= buf@.len(),
                DecodeOutcome::Incomplete => dec(buf@) == DecS::More,
                DecodeOutcome::Malformed => dec(buf@) == DecS::Bad,
            },
        decreases buf@.len(), 0nat,
    {
        decode_frame(buf)
    }
}

/// Scans for the first line terminator pair; yields the length of the
/// line body before it.
fn find_line(s: &[u8]) -> (r: Option<usize>)
    ensures
        match r {
            Some(i) => i + 2 <= s@.len() && take_line(s@) == Some(s@.take(i as int)),
            None => take_line(s@) == None::<Seq<u8>>,
        },
{
    let mut j: usize = 0;
    let n = s.len();
    if n < 2 {
        proof {
            lemma_take_line_none(s@);
        }
        return None;
    }
    while j < n - 1
        invariant
            n == s@.len(),
            2 <= n,
            j <= n - 1,
            forall|k: int| 0 <= k < j ==> !(#[trigger] s@[k] == 13u8 && s@[k + 1] == 10u8),
        decreases s@.len() - j,
    {
        let a = *slice_index_get(s, j);
        let b = *slice_index_get(s, j + 1);
        if a == 13 && b == 10 {
            proof {
                lemma_take_line_at(s@, j as int);
            }
            return Some(j);
        }
        j = j + 1;
    }
    proof {
        lemma_take_line_none(s@);
    }
    None
}

/// Reads a complete header line body as a signed 64-bit number.
fn parse_i64(l: &[u8]) -> (r: Option<i64>)
    ensures
        match r {
            Some(v) => parse_int(l@) == Some(v as int),
            None => parse_int(l@) == None::<int>,
        },
{
    if l.len() > 0 && *slice_index_get(l, 0) == 45 {
        let m = slice_subrange(l, 1, l.len());
        assert(m@ =~= l@.drop_first());
        match digits_value(m, 9223372036854775808u64) {
            Some(v) => {
                let r = (-(v as i128)) as i64;
                assert(r as int == -(v as int));
                Some(r)
            },
            None => None,
        }
    } else {
        match digits_value(l, 9223372036854775807u64) {
            Some(v) => Some(v as i64),
            None => None,
        }
    }
}

/// Whether a header line body is the null marker `-1`.
fn is_null_marker(l: &[u8]) -> (r: bool)
    ensures
        r == (l@ == null_marker()),
{
    if l.len() == 2 && *slice_index_get(l, 0) == 45 && *slice_index_get(l, 1) == 49 {
        assert(l@ =~= null_marker());
        true
    } else {
        assert(l@ != null_marker());
        false
    }
}

fn decode_frame(buf: &[u8]) -> (r: DecodeOutcome)
    ensures
        match r {
            DecodeOutcome::Complete(f, used) => dec(buf@) == DecS::Done(f@, used as int) && 1
                <= used <= buf@.len(),
            DecodeOutcome::Incomplete => dec(buf@) == DecS::More,
            DecodeOutcome::Malformed => dec(buf@) == DecS::Bad,
        },
    decreases buf@.len(), 0nat,
{
    if buf.len() == 0 {
        return DecodeOutcome::Incomplete;
    }
    let tag = *slice_index_get(buf, 0);
    let tail = slice_subrange(buf, 1, buf.len());
    assert(tail@ =~= buf@.drop_first());
    if tag == 43 || tag == 45 {
        match find_line(tail) {
            None => DecodeOutcome::Incomplete,
            Some(i) => {
                let content = slice_to_vec(slice_subrange(tail, 0, i));
                assert(content@ =~= tail@.take(i as int));
                let f = if tag == 43 {
                    RespFrame::Simple(content)
                } else {
                    RespFrame::Error(content)
                };
                DecodeOutcome::Complete(f, i + 3)
            },
        }
    } else if tag == 58 {
        match find_line(tail) {
            None => DecodeOutcome::Incomplete,
            Some(i) => {
                let l = slice_subrange(tail, 0, i);
                match parse_i64(l) {
                    None => DecodeOutcome::Malformed,
                    Some(v) => DecodeOutcome::Complete(RespFrame::Integer(v), i + 3),
                }
            },
        }
    } else if tag == 36 {
        match find_line(tail) {
            None => DecodeOutcome::Incomplete,
            Some(i) => {
                let l = slice_subrange(tail, 0, i);
                if is_null_marker(l) {
                    DecodeOutcome::Complete(RespFrame::NullBulk, 5)
                } else {
                    match digits_value(l, MAX_BULK_LEN) {
                        None => DecodeOutcome::Malformed,
                        Some(n) => {
                            let hlen: usize = i + 3;
                            let need: u128 = hlen as u128 + n as u128 + 2;
                            if (buf.len() as u128) < need {
                                DecodeOutcome::Incomplete
                            } else {
                                let n_us: usize = n as usize;
                                let a = *slice_index_get(buf, hlen + n_us);
                                let b = *slice_index_get(buf, hlen + n_us + 1);
                                if a == 13 && b == 10 {
                                    let data = slice_to_vec(
                                        slice_subrange(buf, hlen, hlen + n_us),
                                    );
                                    DecodeOutcome::Complete(
                                        RespFrame::Bulk(data),
                                        hlen + n_us + 2,
                                    )
                                } else {
                                    DecodeOutcome::Malformed
                                }
                            }
                        },
                    }
                }
            },
        }
    } else if tag == 42 {
        match find_line(tail) {
            None => DecodeOutcome::Incomplete,
            Some(i) => {
                let l = slice_subrange(tail, 0, i);
                if is_null_marker(l) {
                    DecodeOutcome::Complete(RespFrame::NullArray, 5)
                } else {
                    match digits_value(l, MAX_ARRAY_LEN) {
                        None => DecodeOutcome::Malformed,
                        Some(n) => {
                            let hlen: usize = i + 3;
                            let rest = slice_subrange(buf, hlen, buf.len());
                            assert(rest@ =~= buf@.skip(hlen as int));
                            match decode_elems(rest, n) {
                                ElemsOutcome::Complete(es, used) => {
                                    assert(frame_model(RespFrame::Array(es)) == FrameS::Array(
                                        frame_models(es@),
                                    ));
                                    DecodeOutcome::Complete(RespFrame::Array(es), hlen + used)
                                },
                                ElemsOutcome::Incomplete => DecodeOutcome::Incomplete,
                                ElemsOutcome::Malformed => DecodeOutcome::Malformed,
                            }
                        },
                    }
                }
            },
        }
    } else {
        DecodeOutcome::Malformed
    }
}

enum ElemsOutcome {
    Complete(Vec<RespFrame>, usize),
    Incomplete,
    Malformed,
}

fn decode_elems(buf: &[u8], n: u64) -> (r: ElemsOutcome)
    ensures
        match r {
            ElemsOutcome::Complete(es, used) => dec_elems(buf@, n as nat) == DecSeqS::Done(
                frame_models(es@),
                used as int,
            ) && used <= buf@.len(),
            ElemsOutcome::Incomplete => dec_elems(buf@, n as nat) == DecSeqS::More,
            ElemsOutcome::Malformed => dec_elems(buf@, n as nat) == DecSeqS::Bad,
        },
    decreases buf@.len(), n as nat + 1,
{
    if n == 0 {
        let es: Vec<RespFrame> = Vec::new();
        assert(frame_models(es@) =~= Seq::<FrameS>::empty());
        return ElemsOutcome::Complete(es, 0);
    }
    match decode_frame(buf) {
        DecodeOutcome::Incomplete => ElemsOutcome::Incomplete,
        DecodeOutcome::Malformed => ElemsOutcome::Malformed,
        DecodeOutcome::Complete(f, used) => {
            let rest = slice_subrange(buf, used, buf.len());
            assert(rest@ =~= buf@.skip(used as int));
            match decode_elems(rest, n - 1) {
                ElemsOutcome::Incomplete => ElemsOutcome::Incomplete,
                ElemsOutcome::Malformed => ElemsOutcome::Malformed,
                ElemsOutcome::Complete(es, used2) => {
                    let ghost tail_view = es@;
                    let mut all = es;
                    all.insert(0, f);
                    proof {
                        assert(all@.drop_first() =~= tail_view);
                        lemma_frame_models(all@);
                        lemma_frame_models(tail_view);
                        assert forall|i: int| 0 <= i < all@.len() implies frame_models(all@)[i]
                            == (seq![frame_model(f)] + frame_models(tail_view))[i] by {
                            if i == 0 {
                                assert(all@[0] == f);
                            } else {
                                assert(all@.drop_first()[i - 1] == all@[i]);
                            }
                        }
                        assert(frame_models(all@) =~= seq![frame_model(f)] + frame_models(
                            tail_view,
                        ));
                    }
                    ElemsOutcome::Complete(all, used + used2)
                },
            }
        },
    }
}

} // verus!
