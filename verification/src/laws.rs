use vstd::prelude::*;
use crate::frame::{FrameS, MAX_BULK_LEN};
use crate::digits::{all_digits, dec_digits, dec_text, digits_val, is_digit, lemma_dec_digits};
use crate::wire::{
    crlf, dec, dec_elems, enc, enc_all, lemma_take_line_found, lemma_take_line_none, null_marker,
    parse_int, take_line, DecS, DecSeqS,
};

verus! {

broadcast use {
    vstd::seq::axiom_seq_index_decreases,
    vstd::seq::axiom_seq_subrange_decreases,
};

/// Digit bytes are never line terminators.
proof fn lemma_digits_no_crlf(s: Seq<u8>)
    requires
        all_digits(s),
    ensures
        forall|j: int| 0 <= j < s.len() ==> #[trigger] s[j] != 13u8 && s[j] != 10u8,
{
    assert forall|j: int| 0 <= j < s.len() implies #[trigger] s[j] != 13u8 && s[j] != 10u8 by {
        assert(is_digit(s[j]));
    }
}

/// The wire text of a number contains no line terminator, and reads
/// back as the number itself.
proof fn lemma_dec_text_facts(i: int)
    requires
        -9223372036854775808 <= i <= 9223372036854775807,
    ensures
        forall|j: int| 0 <= j < dec_text(i).len() ==> #[trigger] dec_text(i)[j] != 13u8
            && dec_text(i)[j] != 10u8,
        parse_int(dec_text(i)) == Some(i),
{
    if i >= 0 {
        lemma_dec_digits(i as nat);
        lemma_digits_no_crlf(dec_digits(i as nat));
        let l = dec_text(i);
        assert(is_digit(l[0]));
        assert(l[0] != 45u8);
    } else {
        lemma_dec_digits((-i) as nat);
        lemma_digits_no_crlf(dec_digits((-i) as nat));
        let l = dec_text(i);
        let m = l.drop_first();
        assert(m =~= dec_digits((-i) as nat));
        assert(l[0] == 45u8);
        assert(forall|j: int| 1 <= j < l.len() ==> #[trigger] l[j] == m[j - 1]);
        assert(parse_int(l) == Some(-digits_val(m)));
    }
}

/// Every frame takes at least the tag byte and a line terminator.
proof fn lemma_enc_len(f: FrameS)
    ensures
        enc(f).len() >= 3,
{
    match f {
        FrameS::Integer(i) => {
            assert(dec_text(i).len() >= 1) by {
                if i >= 0 {
                    lemma_dec_digits(i as nat);
                } else {
                    lemma_dec_digits((-i) as nat);
                }
            }
        },
        FrameS::Bulk(b) => {
            lemma_dec_digits(b.len());
        },
        FrameS::Array(es) => {
            lemma_dec_digits(es.len());
        },
        _ => {},
    }
}

/// A digit line is never the null marker: its first byte is a digit,
/// not a minus sign.
proof fn lemma_digits_not_null_marker(l: Seq<u8>)
    requires
        all_digits(l),
        l.len() > 0,
    ensures
        l != null_marker(),
{
    assert(is_digit(l[0]));
    if l == null_marker() {
        assert(l[0] == 45u8);
    }
}

/// Decoding the wire bytes of a valid frame, whatever follows them,
/// yields that frame back and consumes exactly its bytes.
#[verifier::rlimit(80)]
pub proof fn lemma_round_trip(f: FrameS, rest: Seq<u8>)
    requires
        f.valid(),
    ensures
        dec(enc(f) + rest) == DecS::Done(f, enc(f).len() as int),
    decreases f, 0nat,
{
    let s = enc(f) + rest;
    match f {
        FrameS::Simple(c) => {
            assert(s[0] == 43u8);
            assert(s.drop_first() =~= c + crlf() + rest);
            lemma_take_line_found(c, rest);
        },
        FrameS::Error(c) => {
            assert(s[0] == 45u8);
            assert(s.drop_first() =~= c + crlf() + rest);
            lemma_take_line_found(c, rest);
        },
        FrameS::Integer(i) => {
            assert(s[0] == 58u8);
            lemma_dec_text_facts(i);
            assert(s.drop_first() =~= dec_text(i) + crlf() + rest);
            lemma_take_line_found(dec_text(i), rest);
        },
        FrameS::Bulk(b) => {
            let n = b.len() as int;
            let dd = dec_digits(b.len());
            lemma_dec_digits(b.len());
            lemma_digits_no_crlf(dd);
            lemma_digits_not_null_marker(dd);
            assert(s[0] == 36u8);
            let after = b + crlf() + rest;
            assert(s.drop_first() =~= dd + crlf() + after);
            lemma_take_line_found(dd, after);
            let hlen = 3 + dd.len() as int;
            assert(s.len() >= hlen + n + 2);
            assert(s.skip(hlen) =~= after);
            assert(after[n] == 13u8);
            assert(after[n + 1] == 10u8);
            assert(s[hlen + n] == after[n]);
            assert(s[hlen + n + 1] == after[n + 1]);
            assert(s.subrange(hlen, hlen + n) =~= b);
            assert(enc(f).len() == hlen + n + 2);
        },
        FrameS::NullBulk => {
            assert(s[0] == 36u8);
            assert(s.drop_first() =~= null_marker() + crlf() + rest);
            assert(forall|j: int| 0 <= j < null_marker().len() ==> #[trigger] null_marker()[j]
                != 13u8);
            lemma_take_line_found(null_marker(), rest);
            assert(enc(f).len() == 5);
        },
        FrameS::Array(es) => {
            let dd = dec_digits(es.len());
            lemma_dec_digits(es.len());
            lemma_digits_no_crlf(dd);
            lemma_digits_not_null_marker(dd);
            assert(s[0] == 42u8);
            let after = enc_all(es) + rest;
            assert(s.drop_first() =~= dd + crlf() + after);
            lemma_take_line_found(dd, after);
            let hlen = 3 + dd.len() as int;
            assert(hlen <= s.len());
            assert(s.skip(hlen) =~= after);
            assert(FrameS::Array(es).valid());
            assert(forall|i: int| 0 <= i < es.len() ==> (#[trigger] es[i]).valid());
            assert(forall|i: int| 0 <= i < es.len() ==> #[trigger] es[i].valid());
            lemma_round_trip_all(es, rest);
            assert(enc(f).len() == hlen + enc_all(es).len());
        },
        FrameS::NullArray => {
            assert(s[0] == 42u8);
            assert(s.drop_first() =~= null_marker() + crlf() + rest);
            assert(forall|j: int| 0 <= j < null_marker().len() ==> #[trigger] null_marker()[j]
                != 13u8);
            lemma_take_line_found(null_marker(), rest);
            assert(enc(f).len() == 5);
        },
    }
}

/// Decoding the concatenated wire bytes of a run of valid frames,
/// whatever follows them, yields those frames in order.
pub proof fn lemma_round_trip_all(es: Seq<FrameS>, rest: Seq<u8>)
    requires
        forall|i: int| 0 <= i < es.len() ==> #[trigger] es[i].valid(),
    ensures
        dec_elems(enc_all(es) + rest, es.len()) == DecSeqS::Done(es, enc_all(es).len() as int),
    decreases es, 1nat,
{
    if es.len() == 0 {
        assert(es =~= Seq::<FrameS>::empty());
        assert(enc_all(es).len() == 0);
    } else {
        let first = es.first();
        let tail = es.drop_first();
        let s = enc_all(es) + rest;
        let tail_bytes = enc_all(tail) + rest;
        assert(s =~= enc(first) + tail_bytes);
        assert(first.valid());
        lemma_round_trip(first, tail_bytes);
        lemma_enc_len(first);
        let used = enc(first).len() as int;
        assert(1 <= used && used <= s.len());
        assert(s.skip(used) =~= tail_bytes);
        assert(forall|i: int| 0 <= i < tail.len() ==> #[trigger] tail[i].valid()) by {
            assert(forall|i: int| 0 <= i < tail.len() ==> tail[i] == #[trigger] es[i + 1]);
        }
        lemma_round_trip_all(tail, rest);
        assert(seq![first] + tail =~= es);
        assert(enc_all(es).len() == used + enc_all(tail).len());
    }
}

/// A proper prefix of a terminated header line holds no complete line.
proof fn lemma_header_prefix(content: Seq<u8>, k: int)
    requires
        forall|j: int| 0 <= j < content.len() ==> #[trigger] content[j] != 13u8 && content[j]
            != 10u8,
        0 <= k <= content.len() + 1,
    ensures
        take_line((content + crlf()).take(k)) == None::<Seq<u8>>,
{
    let p = (content + crlf()).take(k);
    assert forall|j: int| 0 <= j && j + 1 < p.len() implies !(#[trigger] p[j] == 13u8 && p[j + 1]
        == 10u8) by {
        assert(j < content.len());
        assert(p[j] == content[j]);
    }
    lemma_take_line_none(p);
}

/// Feeding any proper prefix of a valid frame's wire bytes reports
/// "incomplete": never a frame, never an error.
#[verifier::rlimit(80)]
pub proof fn lemma_partial_input(f: FrameS, i: int)
    requires
        f.valid(),
        0 <= i < enc(f).len(),
    ensures
        dec(enc(f).take(i)) == DecS::More,
    decreases f, 0nat,
{
    let e = enc(f);
    let p = e.take(i);
    if i == 0 {
        assert(p.len() == 0);
    } else {
        assert(p[0] == e[0]);
        match f {
            FrameS::Simple(c) => {
                assert(p[0] == 43u8);
                assert(p.drop_first() =~= (c + crlf()).take(i - 1));
                lemma_header_prefix(c, i - 1);
            },
            FrameS::Error(c) => {
                assert(p[0] == 45u8);
                assert(p.drop_first() =~= (c + crlf()).take(i - 1));
                lemma_header_prefix(c, i - 1);
            },
            FrameS::Integer(v) => {
                assert(p[0] == 58u8);
                lemma_dec_text_facts(v);
                assert(p.drop_first() =~= (dec_text(v) + crlf()).take(i - 1));
                lemma_header_prefix(dec_text(v), i - 1);
            },
            FrameS::NullBulk => {
                assert(p[0] == 36u8);
                assert(p.drop_first() =~= (null_marker() + crlf()).take(i - 1));
                assert(forall|j: int| 0 <= j < null_marker().len() ==> #[trigger] null_marker()[j]
                    != 13u8 && null_marker()[j] != 10u8);
                lemma_header_prefix(null_marker(), i - 1);
            },
            FrameS::NullArray => {
                assert(p[0] == 42u8);
                assert(p.drop_first() =~= (null_marker() + crlf()).take(i - 1));
                assert(forall|j: int| 0 <= j < null_marker().len() ==> #[trigger] null_marker()[j]
                    != 13u8 && null_marker()[j] != 10u8);
                lemma_header_prefix(null_marker(), i - 1);
            },
            FrameS::Bulk(b) => {
                let n = b.len() as int;
                let dd = dec_digits(b.len());
                lemma_dec_digits(b.len());
                lemma_digits_no_crlf(dd);
                lemma_digits_not_null_marker(dd);
                assert(p[0] == 36u8);
                let hl = dd.len() as int;
                if i - 1 <= hl + 1 {
                    assert(p.drop_first() =~= (dd + crlf()).take(i - 1));
                    lemma_header_prefix(dd, i - 1);
                } else {
                    let body = (b + crlf()).take(i - 1 - (hl + 2));
                    assert(p.drop_first() =~= dd + crlf() + body);
                    lemma_take_line_found(dd, body);
                    let hlen = 3 + hl;
                    assert(p.len() == i);
                    assert(i < hlen + n + 2);
                }
            },
            FrameS::Array(es) => {
                let dd = dec_digits(es.len());
                lemma_dec_digits(es.len());
                lemma_digits_no_crlf(dd);
                lemma_digits_not_null_marker(dd);
                assert(p[0] == 42u8);
                let hl = dd.len() as int;
                if i - 1 <= hl + 1 {
                    assert(p.drop_first() =~= (dd + crlf()).take(i - 1));
                    lemma_header_prefix(dd, i - 1);
                } else {
                    let hlen = 3 + hl;
                    let m = i - hlen;
                    let body = enc_all(es).take(m);
                    assert(p.drop_first() =~= dd + crlf() + body);
                    lemma_take_line_found(dd, body);
                    assert(hlen <= p.len());
                    assert(p.skip(hlen) =~= body);
                    assert(0 <= m < enc_all(es).len());
                    assert(FrameS::Array(es).valid());
                    assert(forall|i: int| 0 <= i < es.len() ==> (#[trigger] es[i]).valid());
                    assert(forall|i: int| 0 <= i < es.len() ==> #[trigger] es[i].valid());
                    lemma_partial_input_all(es, m);
                }
            },
        }
    }
}

/// Feeding any proper prefix of the wire bytes of a run of valid
/// frames reports "incomplete".
pub proof fn lemma_partial_input_all(es: Seq<FrameS>, m: int)
    requires
        forall|i: int| 0 <= i < es.len() ==> #[trigger] es[i].valid(),
        0 <= m < enc_all(es).len(),
    ensures
        dec_elems(enc_all(es).take(m), es.len()) == DecSeqS::More,
    decreases es, 1nat,
{
    assert(es.len() > 0);
    let first = es.first();
    let tail = es.drop_first();
    assert(first.valid());
    assert(forall|i: int| 0 <= i < tail.len() ==> #[trigger] tail[i].valid()) by {
        assert(forall|i: int| 0 <= i < tail.len() ==> tail[i] == #[trigger] es[i + 1]);
    }
    let l1 = enc(first).len() as int;
    let q = enc_all(es).take(m);
    if m < l1 {
        assert(q =~= enc(first).take(m));
        lemma_partial_input(first, m);
    } else {
        let body = enc_all(tail).take(m - l1);
        assert(q =~= enc(first) + body);
        lemma_round_trip(first, body);
        lemma_enc_len(first);
        assert(1 <= l1 && l1 <= q.len());
        assert(q.skip(l1) =~= body);
        assert(m - l1 < enc_all(tail).len());
        lemma_partial_input_all(tail, m - l1);
    }
}

/// Decoding exactly the wire bytes of a valid frame yields it back
/// with nothing left over.
pub proof fn lemma_round_trip_exact(f: FrameS)
    requires
        f.valid(),
    ensures
        dec(enc(f)) == DecS::Done(f, enc(f).len() as int),
{
    lemma_round_trip(f, Seq::empty());
    assert(enc(f) + Seq::<u8>::empty() =~= enc(f));
}

/// A bulk-string header that declares a length above the maximum is
/// refused outright, however many bytes follow.
pub proof fn lemma_oversize_refused(l: Seq<u8>, rest: Seq<u8>)
    requires
        all_digits(l),
        l.len() > 0,
        digits_val(l) > MAX_BULK_LEN,
    ensures
        dec(seq![36u8] + l + crlf() + rest) == DecS::Bad,
{
    let s = seq![36u8] + l + crlf() + rest;
    lemma_digits_no_crlf(l);
    lemma_digits_not_null_marker(l);
    assert(s[0] == 36u8);
    assert(s.drop_first() =~= l + crlf() + rest);
    lemma_take_line_found(l, rest);
}

} // verus!
