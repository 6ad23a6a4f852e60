use vstd::prelude::*;

verus! {

broadcast use {
    vstd::seq::axiom_seq_index_decreases,
    vstd::seq::axiom_seq_subrange_decreases,
    vstd::std_specs::vec::axiom_vec_index_decreases,
    vstd::std_specs::vec::axiom_vec_decreases_to_view,
};

/// Largest byte length a bulk string may declare on the wire.
pub const MAX_BULK_LEN: u64 = 536870912;

/// Largest element count an array may declare on the wire.
pub const MAX_ARRAY_LEN: u64 = 1048576;

/// One discrete value of the wire protocol.
#[derive(Debug, PartialEq, Eq)]
pub enum RespFrame {
    /// Short success line, sent as `+...`.
    Simple(Vec<u8>),
    /// Short failure line, sent as `-...`.
    Error(Vec<u8>),
    /// Signed 64-bit integer, sent as `:...`.
    Integer(i64),
    /// Length-prefixed byte string, sent as `$<len>`.
    Bulk(Vec<u8>),
    /// The explicit null bulk string, sent as `$-1`.
    NullBulk,
    /// Ordered sequence of frames, sent as `*<count>`.
    Array(Vec<RespFrame>),
    /// The explicit null array, sent as `*-1`.
    NullArray,
}

/// Mathematical model of a frame: the same tree with byte contents as
/// sequences and unbounded integers.
pub enum FrameS {
    Simple(Seq<u8>),
    Error(Seq<u8>),
    Integer(int),
    Bulk(Seq<u8>),
    NullBulk,
    Array(Seq<FrameS>),
    NullArray,
}

/// The model of an executable frame.
pub open spec fn frame_model(f: RespFrame) -> FrameS
    decreases f,
{
    match f {
        RespFrame::Simple(s) => FrameS::Simple(s@),
        RespFrame::Error(s) => FrameS::Error(s@),
        RespFrame::Integer(i) => FrameS::Integer(i as int),
        RespFrame::Bulk(b) => FrameS::Bulk(b@),
        RespFrame::NullBulk => FrameS::NullBulk,
        RespFrame::Array(es) => FrameS::Array(frame_models(es@)),
        RespFrame::NullArray => FrameS::NullArray,
    }
}

/// The models of a sequence of executable frames, in order.
pub open spec fn frame_models(es: Seq<RespFrame>) -> Seq<FrameS>
    decreases es,
{
    if es.len() == 0 {
        Seq::empty()
    } else {
        frame_models(es.drop_last()).push(frame_model(es.last()))
    }
}

impl View for RespFrame {
    type V = FrameS;

    open spec fn view(&self) -> FrameS {
        frame_model(*self)
    }
}

/// `frame_models` maps the sequence pointwise.
pub proof fn lemma_frame_models(es: Seq<RespFrame>)
    ensures
        frame_models(es).len() == es.len(),
        forall|i: int| 0 <= i < es.len() ==> frame_models(es)[i] == frame_model(#[trigger] es[i]),
    decreases es.len(),
{
    if es.len() > 0 {
        broadcast use vstd::seq::axiom_seq_push_index_different;

        lemma_frame_models(es.drop_last());
        assert forall|i: int| 0 <= i < es.len() implies frame_models(es)[i] == frame_model(
            es[i],
        ) by {
            if i < es.len() - 1 {
                assert(es.drop_last()[i] == es[i]);
                assert(frame_models(es)[i] == frame_models(es.drop_last())[i]);
            } else {
                assert(es.last() == es[i]);
            }
        }
    }
}

/// A line body may not contain the carriage return or line feed bytes:
/// those delimit lines on the wire.
pub open spec fn line_ok(s: Seq<u8>) -> bool {
    forall|i: int| 0 <= i < s.len() ==> s[i] != 13u8 && s[i] != 10u8
}

impl FrameS {
    /// A frame that the codec can carry on the wire: line bodies free of
    /// line terminators, integers within 64 bits, lengths within the
    /// declared maxima.
    pub open spec fn valid(self) -> bool
        decreases self,
    {
        match self {
            FrameS::Simple(s) => line_ok(s),
            FrameS::Error(s) => line_ok(s),
            FrameS::Integer(i) => i64::MIN <= i <= i64::MAX,
            FrameS::Bulk(b) => b.len() <= MAX_BULK_LEN,
            FrameS::NullBulk => true,
            FrameS::Array(es) => es.len() <= MAX_ARRAY_LEN && (forall|i: int|
                0 <= i < es.len() ==> (#[trigger] es[i]).valid()),
            FrameS::NullArray => true,
        }
    }
}

/// Whether a line body is free of line terminator bytes.
fn line_ok_exec(v: &Vec<u8>) -> (r: bool)
    ensures
        r == line_ok(v@),
{
    let mut j: usize = 0;
    while j < v.len()
        invariant
            j <= v@.len(),
            forall|i: int| 0 <= i < j ==> v@[i] != 13u8 && #[trigger] v@[i] != 10u8,
        decreases v@.len() - j,
    {
        let b = v[j];
        if b == 13 || b == 10 {
            return false;
        }
        j = j + 1;
    }
    true
}

impl RespFrame {
    /// Whether the codec can carry this frame: status and error lines
    /// free of line terminators, and every length within the declared
    /// maxima. Encoding a frame that passes decodes back to it.
    pub fn is_wire_safe(&self) -> (r: bool)
        ensures
            r == self@.valid(),
        decreases self,
    {
        match self {
            RespFrame::Simple(s) => line_ok_exec(s),
            RespFrame::Error(s) => line_ok_exec(s),
            RespFrame::Integer(_) => true,
            RespFrame::Bulk(b) => (b.len() as u64) <= MAX_BULK_LEN,
            RespFrame::NullBulk => true,
            RespFrame::Array(es) => {
                proof {
                    lemma_frame_models(es@);
                }
                let ghost ms = frame_models(es@);
                if (es.len() as u64) > MAX_ARRAY_LEN {
                    assert(!FrameS::Array(ms).valid());
                    return false;
                }
                let mut k: usize = 0;
                while k < es.len()
                    invariant
                        *self == RespFrame::Array(*es),
                        k <= es@.len(),
                        es@.len() <= MAX_ARRAY_LEN,
                        ms == frame_models(es@),
                        ms.len() == es@.len(),
                        forall|i: int| 0 <= i < es@.len() ==> ms[i] == frame_model(
                            #[trigger] es@[i],
                        ),
                        forall|i: int| 0 <= i < k ==> (#[trigger] ms[i]).valid(),
                    decreases es@.len() - k,
                {
                    proof {
                        assert(decreases_to!(*self => self->Array_0));
                        assert(self->Array_0 == *es);
                        assert(decreases_to!(*es => es@));
                        assert(decreases_to!(es@ => es@[k as int]));
                    }
                    if !es[k].is_wire_safe() {
                        assert(!ms[k as int].valid());
                        return false;
                    }
                    k = k + 1;
                }
                true
            },
            RespFrame::NullArray => true,
        }
    }
}

} // verus!
