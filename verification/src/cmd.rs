use vstd::prelude::*;
use crate::frame::{frame_model, frame_models, lemma_frame_models, FrameS, RespFrame};
use crate::digits::{all_digits, digits_val, digits_value};
use crate::backend::{copy_bytes, eq_bytes, lookup, Backend, EntryS};

verus! {

/// Why a frame could not be read as a command. Such a failure is
/// answered with an error frame; it never closes the connection.
#[derive(Clone, Copy, Debug, PartialEq, Eq, Structural)]
pub enum ProtocolError {
    /// The request was not an array of bulk strings.
    WrongKind,
    /// The named command came with the wrong number of arguments.
    WrongArity,
    /// An argument had the wrong shape, such as a non-numeric expiry.
    BadArgument,
}

/// One typed, validated operation.
#[derive(Debug)]
pub enum Command {
    Get(Vec<u8>),
    Put(Vec<u8>, Vec<u8>, Option<u64>),
    Del(Vec<Vec<u8>>),
    Ping(Option<Vec<u8>>),
    Unknown(Vec<u8>),
}

/// Model of a command: byte strings as sequences.
pub enum CommandS {
    Get(Seq<u8>),
    Put(Seq<u8>, Seq<u8>, Option<u64>),
    Del(Seq<Seq<u8>>),
    Ping(Option<Seq<u8>>),
    Unknown(Seq<u8>),
}

pub open spec fn cmd_model(c: Command) -> CommandS {
    match c {
        Command::Get(k) => CommandS::Get(k@),
        Command::Put(k, v, e) => CommandS::Put(k@, v@, e),
        Command::Del(ks) => CommandS::Del(ks.deep_view()),
        Command::Ping(p) => CommandS::Ping(
            match p {
                None => None,
                Some(q) => Some(q@),
            },
        ),
        Command::Unknown(n) => CommandS::Unknown(n@),
    }
}

impl View for Command {
    type V = CommandS;

    open spec fn view(&self) -> CommandS {
        cmd_model(*self)
    }
}

/// ASCII upper-casing, byte for byte.
pub open spec fn upper(s: Seq<u8>) -> Seq<u8> {
    s.map_values(|b: u8| if 97 <= b <= 122 { (b - 32) as u8 } else { b })
}

pub open spec fn name_get() -> Seq<u8> {
    seq![71u8, 69u8, 84u8]
}

pub open spec fn name_set() -> Seq<u8> {
    seq![83u8, 69u8, 84u8]
}

pub open spec fn name_del() -> Seq<u8> {
    seq![68u8, 69u8, 76u8]
}

pub open spec fn name_ping() -> Seq<u8> {
    seq![80u8, 73u8, 78u8, 71u8]
}

pub open spec fn name_ex() -> Seq<u8> {
    seq![69u8, 88u8]
}

/// Whether every element is a bulk string: the only shape a request
/// may take.
pub open spec fn bulk_items(items: Seq<FrameS>) -> bool {
    forall|i: int| 0 <= i < items.len() ==> (#[trigger] items[i]) is Bulk
}

pub open spec fn arg(items: Seq<FrameS>, i: int) -> Seq<u8> {
    items[i]->Bulk_0
}

/// The byte arguments after the command name.
pub open spec fn tail_args(items: Seq<FrameS>) -> Seq<Seq<u8>> {
    items.skip(1).map_values(|x: FrameS| x->Bulk_0)
}

/// Reading a request frame as a command. Only an array of bulk
/// strings qualifies; the first element names the command, without
/// regard to letter case; an unsupported name still converts, to the
/// unknown command, and fails only at execution.
pub open spec fn cmd_of(f: FrameS) -> Result<CommandS, ProtocolError> {
    match f {
        FrameS::Array(items) => if !bulk_items(items) {
            Err(ProtocolError::WrongKind)
        } else if items.len() == 0 {
            Err(ProtocolError::WrongArity)
        } else {
            let name = upper(arg(items, 0));
            if name == name_get() {
                if items.len() == 2 {
                    Ok(CommandS::Get(arg(items, 1)))
                } else {
                    Err(ProtocolError::WrongArity)
                }
            } else if name == name_set() {
                if items.len() == 3 {
                    Ok(CommandS::Put(arg(items, 1), arg(items, 2), None))
                } else if items.len() == 5 {
                    if upper(arg(items, 3)) == name_ex() {
                        let sv = arg(items, 4);
                        if sv.len() > 0 && all_digits(sv) && digits_val(sv)
                            <= 18446744073709551615 {
                            Ok(
                                CommandS::Put(
                                    arg(items, 1),
                                    arg(items, 2),
                                    Some(digits_val(sv) as u64),
                                ),
                            )
                        } else {
                            Err(ProtocolError::BadArgument)
                        }
                    } else {
                        Err(ProtocolError::BadArgument)
                    }
                } else {
                    Err(ProtocolError::WrongArity)
                }
            } else if name == name_del() {
                if items.len() >= 2 {
                    Ok(CommandS::Del(tail_args(items)))
                } else {
                    Err(ProtocolError::WrongArity)
                }
            } else if name == name_ping() {
                if items.len() == 1 {
                    Ok(CommandS::Ping(None))
                } else if items.len() == 2 {
                    Ok(CommandS::Ping(Some(arg(items, 1))))
                } else {
                    Err(ProtocolError::WrongArity)
                }
            } else {
                Ok(CommandS::Unknown(name))
            }
        },
        _ => Err(ProtocolError::WrongKind),
    }
}

/// ASCII upper-casing of a byte string.
fn to_upper(v: &Vec<u8>) -> (out: Vec<u8>)
    ensures
        out@ == upper(v@),
{
    let mut out: Vec<u8> = Vec::new();
    let mut j: usize = 0;
    while j < v.len()
        invariant
            j <= v@.len(),
            out@ =~= upper(v@).take(j as int),
        decreases v@.len() - j,
    {
        let b = v[j];
        if 97 <= b && b <= 122 {
            out.push(b - 32);
        } else {
            out.push(b);
        }
        assert(out@ =~= upper(v@).take(j as int + 1));
        j = j + 1;
    }
    assert(upper(v@).take(j as int) =~= upper(v@));
    out
}

/// The bytes of a bulk-string frame.
fn get_bulk(x: &RespFrame) -> (r: &Vec<u8>)
    requires
        x@ is Bulk,
    ensures
        r@ == x@->Bulk_0,
{
    match x {
        RespFrame::Bulk(b) => b,
        _ => vstd::pervasive::unreached(),
    }
}

/// Reads a request frame as a command, or says why it cannot be one.
pub fn convert(f: &RespFrame) -> (r: Result<Command, ProtocolError>)
    ensures
        match r {
            Ok(c) => cmd_of(f@) == Ok::<CommandS, ProtocolError>(c@),
            Err(e) => cmd_of(f@) == Err::<CommandS, ProtocolError>(e),
        },
{
    match f {
        RespFrame::Array(items) => {
            proof {
                lemma_frame_models(items@);
            }
            let ghost ms = frame_models(items@);
            let mut j: usize = 0;
            while j < items.len()
                invariant
                    j <= items@.len(),
                    f@ == FrameS::Array(ms),
                    ms == frame_models(items@),
                    ms.len() == items@.len(),
                    forall|i: int| 0 <= i < items@.len() ==> ms[i] == frame_model(
                        #[trigger] items@[i],
                    ),
                    forall|i: int| 0 <= i < j ==> (#[trigger] ms[i]) is Bulk,
                decreases items@.len() - j,
            {
                match &items[j] {
                    RespFrame::Bulk(_) => {},
                    _ => {
                        assert(!(ms[j as int] is Bulk));
                        return Err(ProtocolError::WrongKind);
                    },
                }
                j = j + 1;
            }
            assert(bulk_items(ms));
            if items.len() == 0 {
                return Err(ProtocolError::WrongArity);
            }
            let name = to_upper(get_bulk(&items[0]));
            let mut word: Vec<u8> = Vec::new();
            word.push(71);
            word.push(69);
            word.push(84);
            assert(word@ =~= name_get());
            if eq_bytes(&name, &word) {
                if items.len() == 2 {
                    return Ok(Command::Get(copy_bytes(get_bulk(&items[1]))));
                }
                return Err(ProtocolError::WrongArity);
            }
            let mut word: Vec<u8> = Vec::new();
            word.push(83);
            word.push(69);
            word.push(84);
            assert(word@ =~= name_set());
            if eq_bytes(&name, &word) {
                if items.len() == 3 {
                    return Ok(
                        Command::Put(
                            copy_bytes(get_bulk(&items[1])),
                            copy_bytes(get_bulk(&items[2])),
                            None,
                        ),
                    );
                }
                if items.len() != 5 {
                    return Err(ProtocolError::WrongArity);
                }
                let exword = to_upper(get_bulk(&items[3]));
                let mut word: Vec<u8> = Vec::new();
                word.push(69);
                word.push(88);
                assert(word@ =~= name_ex());
                if !eq_bytes(&exword, &word) {
                    return Err(ProtocolError::BadArgument);
                }
                match digits_value(get_bulk(&items[4]).as_slice(), 18446744073709551615u64) {
                    Some(secs) => {
                        return Ok(
                            Command::Put(
                                copy_bytes(get_bulk(&items[1])),
                                copy_bytes(get_bulk(&items[2])),
                                Some(secs),
                            ),
                        );
                    },
                    None => {
                        return Err(ProtocolError::BadArgument);
                    },
                }
            }
            let mut word: Vec<u8> = Vec::new();
            word.push(68);
            word.push(69);
            word.push(76);
            assert(word@ =~= name_del());
            if eq_bytes(&name, &word) {
                if items.len() < 2 {
                    return Err(ProtocolError::WrongArity);
                }
                let mut keys: Vec<Vec<u8>> = Vec::new();
                let mut i: usize = 1;
                while i < items.len()
                    invariant
                        1 <= i <= items@.len(),
                        ms == frame_models(items@),
                        ms.len() == items@.len(),
                        bulk_items(ms),
                        forall|n: int| 0 <= n < items@.len() ==> ms[n] == frame_model(
                            #[trigger] items@[n],
                        ),
                        keys.deep_view() =~= tail_args(ms).take(i - 1),
                    decreases items@.len() - i,
                {
                    keys.push(copy_bytes(get_bulk(&items[i])));
                    assert(keys.deep_view() =~= tail_args(ms).take(i as int)) by {
                        assert(keys.deep_view().last() =~= ms[i as int]->Bulk_0);
                        assert(tail_args(ms)[i - 1] == ms.skip(1)[i - 1]->Bulk_0);
                        assert(ms.skip(1)[i - 1] == ms[i as int]);
                        assert(keys.deep_view().drop_last() =~= tail_args(ms).take(i - 1));
                    }
                    i = i + 1;
                }
                assert(tail_args(ms).take(i - 1) =~= tail_args(ms));
                return Ok(Command::Del(keys));
            }
            let mut word: Vec<u8> = Vec::new();
            word.push(80);
            word.push(73);
            word.push(78);
            word.push(71);
            assert(word@ =~= name_ping());
            if eq_bytes(&name, &word) {
                if items.len() == 1 {
                    return Ok(Command::Ping(None));
                }
                if items.len() == 2 {
                    return Ok(Command::Ping(Some(copy_bytes(get_bulk(&items[1])))));
                }
                return Err(ProtocolError::WrongArity);
            }
            Ok(Command::Unknown(name))
        },
        _ => Err(ProtocolError::WrongKind),
    }
}

pub open spec fn ok_msg() -> Seq<u8> {
    seq![79u8, 75u8]
}

pub open spec fn pong_msg() -> Seq<u8> {
    seq![80u8, 79u8, 78u8, 71u8]
}

/// `ERR unknown command`
pub open spec fn unknown_msg() -> Seq<u8> {
    seq![
        69u8, 82u8, 82u8, 32u8, 117u8, 110u8, 107u8, 110u8, 111u8, 119u8, 110u8, 32u8, 99u8,
        111u8, 109u8, 109u8, 97u8, 110u8, 100u8,
    ]
}

/// `ERR wrong frame kind`
pub open spec fn wrong_kind_msg() -> Seq<u8> {
    seq![
        69u8, 82u8, 82u8, 32u8, 119u8, 114u8, 111u8, 110u8, 103u8, 32u8, 102u8, 114u8, 97u8,
        109u8, 101u8, 32u8, 107u8, 105u8, 110u8, 100u8,
    ]
}

/// `ERR wrong arity`
pub open spec fn wrong_arity_msg() -> Seq<u8> {
    seq![
        69u8, 82u8, 82u8, 32u8, 119u8, 114u8, 111u8, 110u8, 103u8, 32u8, 97u8, 114u8, 105u8,
        116u8, 121u8,
    ]
}

/// `ERR bad argument`
pub open spec fn bad_argument_msg() -> Seq<u8> {
    seq![
        69u8, 82u8, 82u8, 32u8, 98u8, 97u8, 100u8, 32u8, 97u8, 114u8, 103u8, 117u8, 109u8,
        101u8, 110u8, 116u8,
    ]
}

pub open spec fn err_text(e: ProtocolError) -> Seq<u8> {
    match e {
        ProtocolError::WrongKind => wrong_kind_msg(),
        ProtocolError::WrongArity => wrong_arity_msg(),
        ProtocolError::BadArgument => bad_argument_msg(),
    }
}

/// Absolute deadline for an expiry of `secs` seconds from `now`,
/// saturating at the top of the clock.
pub open spec fn deadline(now: u64, secs: u64) -> u64 {
    if now + secs > 18446744073709551615 {
        18446744073709551615u64
    } else {
        (now + secs) as u64
    }
}

/// Effect of deleting the named keys left to right: how many held a
/// live binding, and the store afterwards. A key named twice counts
/// once.
pub open spec fn del_all(m: Map<Seq<u8>, EntryS>, keys: Seq<Seq<u8>>, now: u64) -> (
    int,
    Map<Seq<u8>, EntryS>,
)
    decreases keys.len(),
{
    if keys.len() == 0 {
        (0, m)
    } else {
        let c: int = if lookup(m, keys.first(), now) is Some {
            1
        } else {
            0
        };
        let r = del_all(m.remove(keys.first()), keys.drop_first(), now);
        (c + r.0, r.1)
    }
}

/// What one command does to the store, and what it answers. Total:
/// every command, the unknown one included, has a reply.
pub open spec fn exec_spec(c: CommandS, m: Map<Seq<u8>, EntryS>, now: u64) -> (
    FrameS,
    Map<Seq<u8>, EntryS>,
) {
    match c {
        CommandS::Get(k) => (
            match lookup(m, k, now) {
                Some(v) => FrameS::Bulk(v),
                None => FrameS::NullBulk,
            },
            m,
        ),
        CommandS::Put(k, v, ex) => (
            FrameS::Simple(ok_msg()),
            m.insert(
                k,
                EntryS {
                    val: v,
                    expires: match ex {
                        None => None,
                        Some(s) => Some(deadline(now, s)),
                    },
                },
            ),
        ),
        CommandS::Del(keys) => {
            let r = del_all(m, keys, now);
            (FrameS::Integer(r.0), r.1)
        },
        CommandS::Ping(p) => match p {
            None => (FrameS::Simple(pong_msg()), m),
            Some(q) => (FrameS::Bulk(q), m),
        },
        CommandS::Unknown(_) => (FrameS::Error(unknown_msg()), m),
    }
}

/// A deletion's count is answered in a 64-bit integer frame, so the
/// key list must fit it; no list that fits in memory exceeds this.
pub open spec fn del_arity_ok(c: CommandS) -> bool {
    match c {
        CommandS::Del(keys) => keys.len() <= 9223372036854775807,
        _ => true,
    }
}

fn ok_reply() -> (r: RespFrame)
    ensures
        r@ == FrameS::Simple(ok_msg()),
{
    let mut msg: Vec<u8> = Vec::new();
    msg.push(79);
    msg.push(75);
    assert(msg@ =~= ok_msg());
    RespFrame::Simple(msg)
}

fn pong_reply() -> (r: RespFrame)
    ensures
        r@ == FrameS::Simple(pong_msg()),
{
    let mut msg: Vec<u8> = Vec::new();
    msg.push(80);
    msg.push(79);
    msg.push(78);
    msg.push(71);
    assert(msg@ =~= pong_msg());
    RespFrame::Simple(msg)
}

fn unknown_reply() -> (r: RespFrame)
    ensures
        r@ == FrameS::Error(unknown_msg()),
{
    let mut msg: Vec<u8> = Vec::new();
    msg.push(69);
    msg.push(82);
    msg.push(82);
    msg.push(32);
    msg.push(117);
    msg.push(110);
    msg.push(107);
    msg.push(110);
    msg.push(111);
    msg.push(119);
    msg.push(110);
    msg.push(32);
    msg.push(99);
    msg.push(111);
    msg.push(109);
    msg.push(109);
    msg.push(97);
    msg.push(110);
    msg.push(100);
    assert(msg@ =~= unknown_msg());
    RespFrame::Error(msg)
}

/// The error frame that answers a conversion failure.
pub fn err_reply(e: ProtocolError) -> (r: RespFrame)
    ensures
        r@ == FrameS::Error(err_text(e)),
{
    let mut msg: Vec<u8> = Vec::new();
    msg.push(69);
    msg.push(82);
    msg.push(82);
    msg.push(32);
    match e {
        ProtocolError::WrongKind => {
            msg.push(119);
            msg.push(114);
            msg.push(111);
            msg.push(110);
            msg.push(103);
            msg.push(32);
            msg.push(102);
            msg.push(114);
            msg.push(97);
            msg.push(109);
            msg.push(101);
            msg.push(32);
            msg.push(107);
            msg.push(105);
            msg.push(110);
            msg.push(100);
            assert(msg@ =~= wrong_kind_msg());
        },
        ProtocolError::WrongArity => {
            msg.push(119);
            msg.push(114);
            msg.push(111);
            msg.push(110);
            msg.push(103);
            msg.push(32);
            msg.push(97);
            msg.push(114);
            msg.push(105);
            msg.push(116);
            msg.push(121);
            assert(msg@ =~= wrong_arity_msg());
        },
        ProtocolError::BadArgument => {
            msg.push(98);
            msg.push(97);
            msg.push(100);
            msg.push(32);
            msg.push(97);
            msg.push(114);
            msg.push(103);
            msg.push(117);
            msg.push(109);
            msg.push(101);
            msg.push(110);
            msg.push(116);
            assert(msg@ =~= bad_argument_msg());
        },
    }
    RespFrame::Error(msg)
}

/// Applies one command to the store at time `now`, answering with a
/// frame. Never fails: failures are error frames.
pub fn execute(c: &Command, store: &mut Backend, now: u64) -> (r: RespFrame)
    requires
        old(store).wf(),
        del_arity_ok(c@),
    ensures
        final(store).wf(),
        r@ == exec_spec(c@, old(store)@, now).0,
        final(store)@ == exec_spec(c@, old(store)@, now).1,
{
    match c {
        Command::Get(k) => match store.get(k, now) {
            Some(v) => RespFrame::Bulk(v),
            None => RespFrame::NullBulk,
        },
        Command::Put(k, v, ex) => {
            let dl: Option<u64> = match ex {
                None => None,
                Some(s) => Some(
                    if *s > 18446744073709551615u64 - now {
                        18446744073709551615u64
                    } else {
                        now + *s
                    },
                ),
            };
            let _ = store.set(k, copy_bytes(v), dl, now);
            ok_reply()
        },
        Command::Del(keys) => {
            let ghost m0 = store@;
            let ghost dv = keys.deep_view();
            let mut count: u64 = 0;
            let mut i: usize = 0;
            proof {
                assert(dv.skip(0) =~= dv);
            }
            while i < keys.len()
                invariant
                    store.wf(),
                    i <= keys@.len(),
                    dv == keys.deep_view(),
                    dv.len() == keys@.len(),
                    dv.len() <= 9223372036854775807,
                    count <= i,
                    del_all(m0, dv, now).0 == count + del_all(store@, dv.skip(i as int), now).0,
                    del_all(m0, dv, now).1 == del_all(store@, dv.skip(i as int), now).1,
                decreases keys@.len() - i,
            {
                let ghost before = store@;
                assert(keys@[i as int]@ == dv[i as int]) by {
                    assert(dv[i as int] == keys@[i as int].deep_view());
                    assert(keys@[i as int].deep_view() =~= keys@[i as int]@);
                }
                let removed = store.del(&keys[i], now);
                proof {
                    let suffix = dv.skip(i as int);
                    assert(suffix.first() == dv[i as int]);
                    assert(suffix.drop_first() =~= dv.skip(i as int + 1));
                    assert(store@ == before.remove(dv[i as int]));
                }
                if removed {
                    count = count + 1;
                }
                i = i + 1;
            }
            proof {
                assert(dv.skip(i as int) =~= Seq::<Seq<u8>>::empty());
                assert(del_all(store@, dv.skip(i as int), now).0 == 0);
            }
            RespFrame::Integer(count as i64)
        },
        Command::Ping(p) => match p {
            None => pong_reply(),
            Some(q) => RespFrame::Bulk(copy_bytes(q)),
        },
        Command::Unknown(_) => unknown_reply(),
    }
}

/// What the connection answers to one request frame, and the store it
/// leaves behind: a converted command's effect, or an error frame with
/// the store untouched. Always exactly one reply; never a failure.
pub open spec fn respond(f: FrameS, m: Map<Seq<u8>, EntryS>, now: u64) -> (
    FrameS,
    Map<Seq<u8>, EntryS>,
) {
    match cmd_of(f) {
        Ok(c) => exec_spec(c, m, now),
        Err(e) => (FrameS::Error(err_text(e)), m),
    }
}

/// An array request small enough that a deletion count fits the reply.
pub open spec fn request_ok(f: FrameS) -> bool {
    match f {
        FrameS::Array(items) => items.len() <= 9223372036854775807,
        _ => true,
    }
}

/// One full turn of the request loop after a frame has arrived:
/// convert, execute against the shared store, and answer. A conversion
/// failure yields an error frame and leaves the store as it was; the
/// connection goes on.
pub fn handle_request(f: &RespFrame, store: &mut Backend, now: u64) -> (r: RespFrame)
    requires
        old(store).wf(),
        request_ok(f@),
    ensures
        final(store).wf(),
        r@ == respond(f@, old(store)@, now).0,
        final(store)@ == respond(f@, old(store)@, now).1,
{
    match convert(f) {
        Ok(c) => {
            proof {
                if c@ is Del {
                    assert(del_arity_ok(c@));
                }
            }
            execute(&c, store, now)
        },
        Err(e) => err_reply(e),
    }
}

/// The store answers reads with what was last written: a set followed
/// by a get of the same key, at any later time and from any
/// connection, yields the written value; a get of a never-set key
/// yields the null bulk string; deleting a just-set key counts one
/// removal and leaves the key unset.
pub proof fn lemma_store_semantics(
    m: Map<Seq<u8>, EntryS>,
    k: Seq<u8>,
    v: Seq<u8>,
    now: u64,
    later: u64,
)
    ensures
        ({
            let (r1, m1) = exec_spec(CommandS::Put(k, v, None), m, now);
            let (r2, m2) = exec_spec(CommandS::Get(k), m1, later);
            r1 == FrameS::Simple(ok_msg()) && r2 == FrameS::Bulk(v) && m2 == m1
        }),
        !m.contains_key(k) ==> exec_spec(CommandS::Get(k), m, now).0 == FrameS::NullBulk,
        ({
            let (r1, m1) = exec_spec(CommandS::Put(k, v, None), m, now);
            let (r3, m3) = exec_spec(CommandS::Del(seq![k]), m1, later);
            r3 == FrameS::Integer(1) && exec_spec(CommandS::Get(k), m3, later).0
                == FrameS::NullBulk
        }),
{
    let e = EntryS { val: v, expires: None };
    let m1 = m.insert(k, e);
    assert(lookup(m1, k, later) == Some(v));
    let ks: Seq<Seq<u8>> = seq![k];
    assert(ks.first() == k);
    assert(ks.drop_first() =~= Seq::<Seq<u8>>::empty());
    let m3 = m1.remove(k);
    assert(del_all(m1, ks, later) == (1int, m3)) by {
        assert(del_all(m3, ks.drop_first(), later) == (0int, m3));
    }
    assert(!m3.contains_key(k));
}

} // verus!
