use vstd::prelude::*;
use crate::frame::{FrameS, MAX_ARRAY_LEN, MAX_BULK_LEN};
use crate::digits::{all_digits, dec_digits, dec_text, digits_val};

verus! {

broadcast use {
    vstd::seq::axiom_seq_index_decreases,
    vstd::seq::axiom_seq_subrange_decreases,
};

/// The two-byte line terminator.
pub open spec fn crlf() -> Seq<u8> {
    seq![13u8, 10u8]
}

/// Canonical wire bytes of a frame.
pub open spec fn enc(f: FrameS) -> Seq<u8>
    decreases f, 0nat,
{
    match f {
        FrameS::Simple(s) => seq![43u8] + s + crlf(),
        FrameS::Error(s) => seq![45u8] + s + crlf(),
        FrameS::Integer(i) => seq![58u8] + dec_text(i) + crlf(),
        FrameS::Bulk(b) => seq![36u8] + dec_digits(b.len()) + crlf() + b + crlf(),
        FrameS::NullBulk => seq![36u8, 45u8, 49u8] + crlf(),
        FrameS::Array(es) => seq![42u8] + dec_digits(es.len()) + crlf() + enc_all(es),
        FrameS::NullArray => seq![42u8, 45u8, 49u8] + crlf(),
    }
}

/// Wire bytes of a sequence of frames, in order.
pub open spec fn enc_all(es: Seq<FrameS>) -> Seq<u8>
    decreases es, 1nat,
{
    if es.len() == 0 {
        Seq::empty()
    } else {
        enc(es.first()) + enc_all(es.drop_first())
    }
}

/// The body of the first terminated line of `s`: the bytes before the
/// first carriage-return/line-feed pair, or nothing when no pair has
/// arrived yet.
pub open spec fn take_line(s: Seq<u8>) -> Option<Seq<u8>>
    decreases s.len(),
{
    if s.len() < 2 {
        None
    } else if s[0] == 13u8 && s[1] == 10u8 {
        Some(Seq::empty())
    } else {
        match take_line(s.drop_first()) {
            None => None,
            Some(l) => Some(seq![s[0]] + l),
        }
    }
}

/// Outcome of decoding one frame from a byte sequence.
pub enum DecS {
    /// A whole frame, and how many bytes it took.
    Done(FrameS, int),
    /// The bytes so far are a proper prefix of some frame.
    More,
    /// The bytes can begin no frame.
    Bad,
}

/// Outcome of decoding a run of frames from a byte sequence.
pub enum DecSeqS {
    Done(Seq<FrameS>, int),
    More,
    Bad,
}

/// Signed number read from a complete header line body.
pub open spec fn parse_int(l: Seq<u8>) -> Option<int> {
    if l.len() > 0 && l[0] == 45u8 {
        let m = l.drop_first();
        if m.len() > 0 && all_digits(m) && digits_val(m) <= 9223372036854775808 {
            Some(-digits_val(m))
        } else {
            None
        }
    } else if l.len() > 0 && all_digits(l) && digits_val(l) <= 9223372036854775807 {
        Some(digits_val(l))
    } else {
        None
    }
}

/// The null marker line body `-1`.
pub open spec fn null_marker() -> Seq<u8> {
    seq![45u8, 49u8]
}

/// Decode one frame from the front of `s`. Consumes nothing on `More`:
/// the caller may extend `s` and retry. `Bad` is fatal to a connection.
pub open spec fn dec(s: Seq<u8>) -> DecS
    decreases s.len(), 0nat,
{
    if s.len() == 0 {
        DecS::More
    } else if s[0] == 43u8 || s[0] == 45u8 {
        match take_line(s.drop_first()) {
            None => DecS::More,
            Some(l) => DecS::Done(
                if s[0] == 43u8 {
                    FrameS::Simple(l)
                } else {
                    FrameS::Error(l)
                },
                3 + l.len() as int,
            ),
        }
    } else if s[0] == 58u8 {
        match take_line(s.drop_first()) {
            None => DecS::More,
            Some(l) => match parse_int(l) {
                None => DecS::Bad,
                Some(i) => DecS::Done(FrameS::Integer(i), 3 + l.len() as int),
            },
        }
    } else if s[0] == 36u8 {
        match take_line(s.drop_first()) {
            None => DecS::More,
            Some(l) => if l == null_marker() {
                DecS::Done(FrameS::NullBulk, 5)
            } else if !(l.len() > 0 && all_digits(l) && digits_val(l) <= MAX_BULK_LEN) {
                DecS::Bad
            } else {
                let hlen = 3 + l.len() as int;
                let n = digits_val(l);
                if s.len() < hlen + n + 2 {
                    DecS::More
                } else if s[hlen + n] == 13u8 && s[hlen + n + 1] == 10u8 {
                    DecS::Done(FrameS::Bulk(s.subrange(hlen, hlen + n)), hlen + n + 2)
                } else {
                    DecS::Bad
                }
            },
        }
    } else if s[0] == 42u8 {
        match take_line(s.drop_first()) {
            None => DecS::More,
            Some(l) => if l == null_marker() {
                DecS::Done(FrameS::NullArray, 5)
            } else if !(l.len() > 0 && all_digits(l) && digits_val(l) <= MAX_ARRAY_LEN) {
                DecS::Bad
            } else {
                let hlen = 3 + l.len() as int;
                if hlen > s.len() {
                    DecS::More
                } else {
                    match dec_elems(s.skip(hlen), digits_val(l) as nat) {
                        DecSeqS::Done(es, used) => DecS::Done(FrameS::Array(es), hlen + used),
                        DecSeqS::More => DecS::More,
                        DecSeqS::Bad => DecS::Bad,
                    }
                }
            },
        }
    } else {
        DecS::Bad
    }
}

/// Decode exactly `n` frames from the front of `s`.
pub open spec fn dec_elems(s: Seq<u8>, n: nat) -> DecSeqS
    decreases s.len(), n + 1,
{
    if n == 0 {
        DecSeqS::Done(Seq::empty(), 0)
    } else {
        match dec(s) {
            DecS::More => DecSeqS::More,
            DecS::Bad => DecSeqS::Bad,
            DecS::Done(f, used) => if used < 1 || used > s.len() {
                DecSeqS::Bad
            } else {
                match dec_elems(s.skip(used), (n - 1) as nat) {
                    DecSeqS::Done(es, used2) => DecSeqS::Done(seq![f] + es, used + used2),
                    DecSeqS::More => DecSeqS::More,
                    DecSeqS::Bad => DecSeqS::Bad,
                }
            },
        }
    }
}

/// Where the first line terminator pair sits, the line body is what
/// stands before it.
pub proof fn lemma_take_line_at(s: Seq<u8>, i: int)
    requires
        0 <= i,
        i + 2 <= s.len(),
        s[i] == 13u8,
        s[i + 1] == 10u8,
        forall|j: int| 0 <= j < i ==> !(#[trigger] s[j] == 13u8 && s[j + 1] == 10u8),
    ensures
        take_line(s) == Some(s.take(i)),
    decreases i,
{
    if i == 0 {
        assert(s.take(0) =~= Seq::<u8>::empty());
    } else {
        let t = s.drop_first();
        assert(forall|j: int| 0 <= j < i - 1 ==> !(#[trigger] t[j] == 13u8 && t[j + 1] == 10u8)) by {
            assert(forall|j: int| 0 <= j < i - 1 ==> #[trigger] t[j] == s[j + 1] && t[j + 1] == s[j + 2]);
        }
        lemma_take_line_at(t, i - 1);
        assert(!(s[0] == 13u8 && s[1] == 10u8));
        assert(seq![s[0]] + t.take(i - 1) =~= s.take(i));
    }
}

/// A byte run with no line terminator pair holds no complete line.
pub proof fn lemma_take_line_none(s: Seq<u8>)
    requires
        forall|j: int| 0 <= j && j + 1 < s.len() ==> !(#[trigger] s[j] == 13u8 && s[j + 1] == 10u8),
    ensures
        take_line(s) == None::<Seq<u8>>,
    decreases s.len(),
{
    if s.len() >= 2 {
        assert(!(s[0] == 13u8 && s[1] == 10u8));
        let t = s.drop_first();
        assert(forall|j: int| 0 <= j && j + 1 < t.len() ==> !(#[trigger] t[j] == 13u8 && t[j + 1] == 10u8))
            by {
            assert(forall|j: int| 0 <= j && j + 1 < t.len() ==> #[trigger] t[j] == s[j + 1] && t[j + 1]
                == s.index(j + 2));
        }
        lemma_take_line_none(t);
    }
}

/// A body free of terminator bytes, followed by the terminator, reads
/// back as exactly that body, whatever follows.
pub proof fn lemma_take_line_found(content: Seq<u8>, rest: Seq<u8>)
    requires
        forall|j: int| 0 <= j < content.len() ==> #[trigger] content[j] != 13u8,
    ensures
        take_line(content + crlf() + rest) == Some(content),
{
    let s = content + crlf() + rest;
    let i = content.len() as int;
    assert(s[i] == 13u8 && s[i + 1] == 10u8);
    assert(forall|j: int| 0 <= j < i ==> #[trigger] s[j] == content[j] && s[j] != 13u8);
    lemma_take_line_at(s, i);
    assert(s.take(i) =~= content);
}

/// A complete line sits inside the bytes it was read from.
pub proof fn lemma_take_line_len(s: Seq<u8>, l: Seq<u8>)
    requires
        take_line(s) == Some(l),
    ensures
        l.len() + 2 <= s.len(),
    decreases s.len(),
{
    if s.len() >= 2 && !(s[0] == 13u8 && s[1] == 10u8) {
        match take_line(s.drop_first()) {
            Some(m) => {
                lemma_take_line_len(s.drop_first(), m);
            },
            None => {},
        }
    }
}

} // verus!
