use vstd::prelude::*;
use crate::error::ProxyError;

verus! {

/// Where a chunked body decoder stands.
#[derive(Clone, Copy, Debug, PartialEq, Eq, Structural)]
pub enum ChunkState {
    /// Reading the hex size of a chunk; `digits` once one digit was seen.
    Size { value: u64, digits: bool },
    /// Skipping a chunk extension up to the end of the size line.
    Extension { value: u64 },
    /// The size line's CR was seen; LF expected.
    SizeLf { value: u64 },
    /// Inside chunk data, with this many bytes still to come.
    Data { remaining: u64 },
    DataCr,
    DataLf,
    /// At the start of a trailer line, after the last chunk.
    TrailerStart,
    Trailer,
    TrailerLf,
    /// The CR of the empty line that ends the body was seen.
    EndLf,
    Done,
}

pub open spec fn hex_digit(b: u8) -> Option<u8> {
    if 48 <= b <= 57 {
        Some((b - 48) as u8)
    } else if 97 <= b <= 102 {
        Some((b - 87) as u8)
    } else if 65 <= b <= 70 {
        Some((b - 55) as u8)
    } else {
        None
    }
}

/// One byte of chunked coding: the next state and the body byte it carries,
/// or `None` where the coding is malformed (or the size overflows).
pub open spec fn step(st: ChunkState, b: u8) -> Option<(ChunkState, Option<u8>)> {
    match st {
        ChunkState::Size { value, digits } => match hex_digit(b) {
            Some(h) => if value * 16 + h > u64::MAX {
                None
            } else {
                Some((ChunkState::Size { value: (value * 16 + h) as u64, digits: true }, None))
            },
            None => if !digits {
                None
            } else if b == 59u8 || b == 32u8 || b == 9u8 {
                Some((ChunkState::Extension { value }, None))
            } else if b == 13u8 {
                Some((ChunkState::SizeLf { value }, None))
            } else {
                None
            },
        },
        ChunkState::Extension { value } => if b == 13u8 {
            Some((ChunkState::SizeLf { value }, None))
        } else {
            Some((ChunkState::Extension { value }, None))
        },
        ChunkState::SizeLf { value } => if b != 10u8 {
            None
        } else if value == 0 {
            Some((ChunkState::TrailerStart, None))
        } else {
            Some((ChunkState::Data { remaining: value }, None))
        },
        ChunkState::Data { remaining } => if remaining <= 1 {
            Some((ChunkState::DataCr, Some(b)))
        } else {
            Some((ChunkState::Data { remaining: (remaining - 1) as u64 }, Some(b)))
        },
        ChunkState::DataCr => if b == 13u8 {
            Some((ChunkState::DataLf, None))
        } else {
            None
        },
        ChunkState::DataLf => if b == 10u8 {
            Some((ChunkState::Size { value: 0, digits: false }, None))
        } else {
            None
        },
        ChunkState::TrailerStart => if b == 13u8 {
            Some((ChunkState::EndLf, None))
        } else {
            Some((ChunkState::Trailer, None))
        },
        ChunkState::Trailer => if b == 13u8 {
            Some((ChunkState::TrailerLf, None))
        } else {
            Some((ChunkState::Trailer, None))
        },
        ChunkState::TrailerLf => if b == 10u8 {
            Some((ChunkState::TrailerStart, None))
        } else {
            None
        },
        ChunkState::EndLf => if b == 10u8 {
            Some((ChunkState::Done, None))
        } else {
            None
        },
        ChunkState::Done => None,
    }
}

pub open spec fn opt_seq(o: Option<u8>) -> Seq<u8> {
    match o {
        Some(b) => seq![b],
        None => Seq::empty(),
    }
}

/// Decoding `s` from `st`: stops at the end of `s` or once the body is done.
/// Gives the state reached, the body bytes and how many bytes of `s` were used.
pub open spec fn run(st: ChunkState, s: Seq<u8>) -> Option<(ChunkState, Seq<u8>, nat)>
    decreases s.len(),
{
    if s.len() == 0 || st == ChunkState::Done {
        Some((st, Seq::empty(), 0))
    } else {
        match step(st, s[0]) {
            None => None,
            Some((st2, o)) => match run(st2, s.drop_first()) {
                None => None,
                Some((st3, out, n)) => Some((st3, opt_seq(o) + out, n + 1)),
            },
        }
    }
}

/// Puts `p` (from `i` bytes) before the outcome of a later run.
pub open spec fn after(p: Seq<u8>, i: nat, x: Option<(ChunkState, Seq<u8>, nat)>) -> Option<(ChunkState, Seq<u8>, nat)> {
    match x {
        None => None,
        Some((st, out, n)) => Some((st, p + out, n + i)),
    }
}

proof fn lemma_after_after(p: Seq<u8>, i: nat, q: Seq<u8>, j: nat, x: Option<(ChunkState, Seq<u8>, nat)>)
    ensures
        after(p, i, after(q, j, x)) == after(p + q, i + j, x),
{
    if let Some((st, out, n)) = x {
        assert(p + (q + out) =~= (p + q) + out);
    }
}

fn hex_value_of(b: u8) -> (r: Option<u8>)
    ensures
        r == hex_digit(b),
{
    if 48 <= b && b <= 57 {
        Some(b - 48)
    } else if 97 <= b && b <= 102 {
        Some(b - 87)
    } else if 65 <= b && b <= 70 {
        Some(b - 55)
    } else {
        None
    }
}

pub fn next_state(st: ChunkState, b: u8) -> (r: Option<(ChunkState, Option<u8>)>)
    ensures
        r == step(st, b),
{
    match st {
        ChunkState::Size { value, digits } => match hex_value_of(b) {
            Some(h) => {
                if value > (u64::MAX - h as u64) / 16 {
                    assert(value * 16 + h > u64::MAX) by (nonlinear_arith)
                        requires
                            value > (u64::MAX - h as u64) / 16,
                            h < 16,
                    ;
                    None
                } else {
                    assert(value * 16 + h <= u64::MAX) by (nonlinear_arith)
                        requires
                            value <= (u64::MAX - h as u64) / 16,
                            h < 16,
                    ;
                    Some((ChunkState::Size { value: value * 16 + h as u64, digits: true }, None))
                }
            },
            None => if !digits {
                None
            } else if b == 59u8 || b == 32u8 || b == 9u8 {
                Some((ChunkState::Extension { value }, None))
            } else if b == 13u8 {
                Some((ChunkState::SizeLf { value }, None))
            } else {
                None
            },
        },
        ChunkState::Extension { value } => if b == 13u8 {
            Some((ChunkState::SizeLf { value }, None))
        } else {
            Some((ChunkState::Extension { value }, None))
        },
        ChunkState::SizeLf { value } => if b != 10u8 {
            None
        } else if value == 0 {
            Some((ChunkState::TrailerStart, None))
        } else {
            Some((ChunkState::Data { remaining: value }, None))
        },
        ChunkState::Data { remaining } => if remaining <= 1 {
            Some((ChunkState::DataCr, Some(b)))
        } else {
            Some((ChunkState::Data { remaining: remaining - 1 }, Some(b)))
        },
        ChunkState::DataCr => if b == 13u8 {
            Some((ChunkState::DataLf, None))
        } else {
            None
        },
        ChunkState::DataLf => if b == 10u8 {
            Some((ChunkState::Size { value: 0, digits: false }, None))
        } else {
            None
        },
        ChunkState::TrailerStart => if b == 13u8 {
            Some((ChunkState::EndLf, None))
        } else {
            Some((ChunkState::Trailer, None))
        },
        ChunkState::Trailer => if b == 13u8 {
            Some((ChunkState::TrailerLf, None))
        } else {
            Some((ChunkState::Trailer, None))
        },
        ChunkState::TrailerLf => if b == 10u8 {
            Some((ChunkState::TrailerStart, None))
        } else {
            None
        },
        ChunkState::EndLf => if b == 10u8 {
            Some((ChunkState::Done, None))
        } else {
            None
        },
        ChunkState::Done => None,
    }
}

/// A streaming decoder of a chunked body.
pub struct ChunkedDecoder {
    pub state: ChunkState,
}

impl ChunkedDecoder {
    pub fn new() -> (r: ChunkedDecoder)
        ensures
            r.state == (ChunkState::Size { value: 0, digits: false }),
    {
        ChunkedDecoder { state: ChunkState::Size { value: 0, digits: false } }
    }

    pub fn is_done(&self) -> (r: bool)
        ensures
            r == (self.state == ChunkState::Done),
    {
        match self.state {
            ChunkState::Done => true,
            _ => false,
        }
    }

    /// Decodes as much of `input` as belongs to the body, appending the body
    /// bytes to `out`; returns how many bytes of `input` it used. Bytes after
    /// the end of the body are left for the next message.
    pub fn feed(&mut self, input: &[u8], out: &mut Vec<u8>) -> (r: Result<usize, ProxyError>)
        ensures
            run(old(self).state, input@) is None ==> r == Err::<usize, ProxyError>(
                ProxyError::MalformedMessage,
            ),
            run(old(self).state, input@) matches Some((st, o, n)) ==> r == Ok::<usize, ProxyError>(
                n as usize,
            ) && final(self).state == st && final(out)@ == old(out)@ + o,
    {
        let ghost st0 = self.state;
        let mut i: usize = 0;
        assert(input@.skip(0) =~= input@);
        assert(out@.skip(old(out)@.len() as int) =~= Seq::<u8>::empty());
        assert(out@.take(old(out)@.len() as int) =~= old(out)@);
        proof {
            if let Some((a, b, c)) = run(st0, input@) {
                assert(Seq::<u8>::empty() + b =~= b);
            }
        }
        while i < input.len()
            invariant
                i <= input.len(),
                st0 == old(self).state,
                run(st0, input@) == after(
                    out@.skip(old(out)@.len() as int),
                    i as nat,
                    run(self.state, input@.skip(i as int)),
                ),
                old(out)@.len() <= out@.len(),
                out@.take(old(out)@.len() as int) == old(out)@,
            ensures
                i == input.len() || self.state == ChunkState::Done,
                i <= input.len(),
                run(st0, input@) == after(
                    out@.skip(old(out)@.len() as int),
                    i as nat,
                    run(self.state, input@.skip(i as int)),
                ),
                old(out)@.len() <= out@.len(),
                out@.take(old(out)@.len() as int) == old(out)@,
            decreases input.len() - i,
        {
            if self.is_done() {
                break;
            }
            let ghost rest = input@.skip(i as int);
            let ghost produced = out@.skip(old(out)@.len() as int);
            assert(rest[0] == input@[i as int]);
            assert(rest.drop_first() =~= input@.skip(i + 1));
            match next_state(self.state, input[i]) {
                None => {
                    return Err(ProxyError::MalformedMessage);
                },
                Some((st2, o)) => {
                    proof {
                        lemma_after_after(produced, i as nat, opt_seq(o), 1, run(st2, input@.skip(i + 1)));
                    }
                    if let Some(b) = o {
                        out.push(b);
                    }
                    assert(out@.skip(old(out)@.len() as int) =~= produced + opt_seq(o));
                    assert(out@.take(old(out)@.len() as int) =~= old(out)@);
                    self.state = st2;
                    i = i + 1;
                },
            }
        }
        proof {
            let produced = out@.skip(old(out)@.len() as int);
            assert(out@ =~= old(out)@ + produced);
            assert(produced + Seq::<u8>::empty() =~= produced);
            if i == input.len() {
                assert(input@.skip(i as int) =~= Seq::<u8>::empty());
            }
            assert(run(self.state, input@.skip(i as int)) == Some((self.state, Seq::<u8>::empty(), 0nat)));
        }
        Ok(i)
    }
}

pub open spec fn crlf() -> Seq<u8> {
    seq![13u8, 10u8]
}

/// The value of hex digits `ds` read after a value `v` already read.
pub open spec fn hex_acc(v: nat, ds: Seq<u8>) -> nat
    decreases ds.len(),
{
    if ds.len() == 0 {
        v
    } else {
        hex_acc(v * 16 + hex_digit(ds[0]).unwrap() as nat, ds.drop_first())
    }
}

pub open spec fn all_hex(ds: Seq<u8>) -> bool {
    forall|k: int| 0 <= k < ds.len() ==> #[trigger] hex_digit(ds[k]) is Some
}

/// A data chunk: hex size digits whose value is the (nonzero) length of the data.
pub open spec fn valid_chunk(c: (Seq<u8>, Seq<u8>)) -> bool {
    c.0.len() > 0 && all_hex(c.0) && hex_acc(0, c.0) == c.1.len() && c.1.len() > 0
}

/// A trailer line: nonempty and without CR.
pub open spec fn valid_trailer(t: Seq<u8>) -> bool {
    t.len() > 0 && forall|k: int| 0 <= k < t.len() ==> #[trigger] t[k] != 13u8
}

/// The chunked coding of data chunks given with their size digits.
pub open spec fn encode_chunks(cs: Seq<(Seq<u8>, Seq<u8>)>) -> Seq<u8>
    decreases cs.len(),
{
    if cs.len() == 0 {
        Seq::empty()
    } else {
        cs[0].0 + (crlf() + (cs[0].1 + (crlf() + encode_chunks(cs.drop_first()))))
    }
}

/// The payload that the chunks carry, in order.
pub open spec fn payload(cs: Seq<(Seq<u8>, Seq<u8>)>) -> Seq<u8>
    decreases cs.len(),
{
    if cs.len() == 0 {
        Seq::empty()
    } else {
        cs[0].1 + payload(cs.drop_first())
    }
}

pub open spec fn encode_trailers(ts: Seq<Seq<u8>>) -> Seq<u8>
    decreases ts.len(),
{
    if ts.len() == 0 {
        Seq::empty()
    } else {
        ts[0] + (crlf() + encode_trailers(ts.drop_first()))
    }
}

/// A whole chunked body: the chunks, the last chunk `0`, the trailers and an empty line.
pub open spec fn chunked_body(cs: Seq<(Seq<u8>, Seq<u8>)>, ts: Seq<Seq<u8>>) -> Seq<u8> {
    encode_chunks(cs) + (seq![48u8] + (crlf() + (encode_trailers(ts) + crlf())))
}

pub open spec fn start() -> ChunkState {
    ChunkState::Size { value: 0, digits: false }
}

proof fn lemma_run_cons(st: ChunkState, b: u8, rest: Seq<u8>)
    requires
        st != ChunkState::Done,
        step(st, b) is Some,
    ensures
        run(st, seq![b] + rest) == after(opt_seq(step(st, b).unwrap().1), 1, run(step(st, b).unwrap().0, rest)),
{
    let s = seq![b] + rest;
    assert(s[0] == b);
    assert(s.drop_first() =~= rest);
    let x = run(step(st, b).unwrap().0, rest);
    if let Some((a, o, n)) = x {
        assert(n + 1 == 1 + n);
    }
}

proof fn lemma_after_empty(x: Option<(ChunkState, Seq<u8>, nat)>)
    ensures
        after(Seq::empty(), 0, x) == x,
{
    if let Some((a, o, n)) = x {
        assert(Seq::<u8>::empty() + o =~= o);
    }
}

proof fn lemma_hex_acc_grows(v: nat, ds: Seq<u8>)
    ensures
        v <= hex_acc(v, ds),
    decreases ds.len(),
{
    if ds.len() > 0 {
        lemma_hex_acc_grows(v * 16 + hex_digit(ds[0]).unwrap() as nat, ds.drop_first());
    }
}

proof fn lemma_run_digits(v: u64, dg: bool, ds: Seq<u8>, rest: Seq<u8>)
    requires
        ds.len() > 0,
        all_hex(ds),
        hex_acc(v as nat, ds) <= u64::MAX,
    ensures
        run(ChunkState::Size { value: v, digits: dg }, ds + rest) == after(
            Seq::empty(),
            ds.len(),
            run(ChunkState::Size { value: hex_acc(v as nat, ds) as u64, digits: true }, rest),
        ),
    decreases ds.len(),
{
    let b = ds[0];
    let tail = ds.drop_first();
    assert(hex_digit(ds[0]) is Some);
    let h = hex_digit(b).unwrap();
    let v2 = v * 16 + h;
    lemma_hex_acc_grows(v2 as nat, tail);
    assert(ds + rest =~= seq![b] + (tail + rest));
    let st = ChunkState::Size { value: v, digits: dg };
    let st2 = ChunkState::Size { value: v2 as u64, digits: true };
    assert(step(st, b) == Some((st2, None::<u8>)));
    lemma_run_cons(st, b, tail + rest);
    if tail.len() == 0 {
        assert(tail + rest =~= rest);
        assert(hex_acc(v2 as nat, tail) == v2);
        assert(opt_seq(None) =~= Seq::<u8>::empty());
    } else {
        assert(all_hex(tail)) by {
            assert forall|k: int| 0 <= k < tail.len() implies #[trigger] hex_digit(tail[k]) is Some by {
                assert(tail[k] == ds[k + 1]);
            }
        }
        lemma_run_digits(v2 as u64, true, tail, rest);
        lemma_after_after(
            Seq::empty(),
            1,
            Seq::empty(),
            tail.len(),
            run(ChunkState::Size { value: hex_acc(v as nat, ds) as u64, digits: true }, rest),
        );
        assert(Seq::<u8>::empty() + Seq::<u8>::empty() =~= Seq::<u8>::empty());
        assert(opt_seq(None) =~= Seq::<u8>::empty());
    }
}

proof fn lemma_run_data(r: u64, data: Seq<u8>, rest: Seq<u8>)
    requires
        data.len() == r,
        r >= 1,
    ensures
        run(ChunkState::Data { remaining: r }, data + rest) == after(data, data.len(), run(ChunkState::DataCr, rest)),
    decreases data.len(),
{
    let b = data[0];
    let tail = data.drop_first();
    assert(data + rest =~= seq![b] + (tail + rest));
    lemma_run_cons(ChunkState::Data { remaining: r }, b, tail + rest);
    assert(opt_seq(Some(b)) == seq![b]);
    if r == 1 {
        assert(tail + rest =~= rest);
        assert(seq![b] =~= data);
    } else {
        lemma_run_data((r - 1) as u64, tail, rest);
        lemma_after_after(seq![b], 1, tail, tail.len(), run(ChunkState::DataCr, rest));
        assert(seq![b] + tail =~= data);
    }
}

proof fn lemma_run_line(u: Seq<u8>, rest: Seq<u8>)
    requires
        forall|k: int| 0 <= k < u.len() ==> #[trigger] u[k] != 13u8,
    ensures
        run(ChunkState::Trailer, u + rest) == after(Seq::empty(), u.len(), run(ChunkState::Trailer, rest)),
    decreases u.len(),
{
    if u.len() == 0 {
        assert(u + rest =~= rest);
        lemma_after_empty(run(ChunkState::Trailer, rest));
    } else {
        let b = u[0];
        let tail = u.drop_first();
        assert(u + rest =~= seq![b] + (tail + rest));
        lemma_run_cons(ChunkState::Trailer, b, tail + rest);
        assert forall|k: int| 0 <= k < tail.len() implies #[trigger] tail[k] != 13u8 by {
            assert(tail[k] == u[k + 1]);
        }
        lemma_run_line(tail, rest);
        lemma_after_after(Seq::empty(), 1, Seq::empty(), tail.len(), run(ChunkState::Trailer, rest));
        assert(opt_seq(None) =~= Seq::<u8>::empty());
        assert(Seq::<u8>::empty() + Seq::<u8>::empty() =~= Seq::<u8>::empty());
    }
}

proof fn lemma_run_trailers(ts: Seq<Seq<u8>>, rest: Seq<u8>)
    requires
        forall|i: int| 0 <= i < ts.len() ==> valid_trailer(#[trigger] ts[i]),
    ensures
        run(ChunkState::TrailerStart, encode_trailers(ts) + rest) == after(
            Seq::empty(),
            encode_trailers(ts).len(),
            run(ChunkState::TrailerStart, rest),
        ),
    decreases ts.len(),
{
    if ts.len() == 0 {
        assert(encode_trailers(ts) + rest =~= rest);
        lemma_after_empty(run(ChunkState::TrailerStart, rest));
    } else {
        let t = ts[0];
        let more = ts.drop_first();
        assert(valid_trailer(t));
        let b = t[0];
        let u = t.drop_first();
        let r2 = encode_trailers(more) + rest;
        assert(encode_trailers(ts) + rest =~= seq![b] + (u + (seq![13u8] + (seq![10u8] + r2))));
        lemma_run_cons(ChunkState::TrailerStart, b, u + (seq![13u8] + (seq![10u8] + r2)));
        assert forall|k: int| 0 <= k < u.len() implies #[trigger] u[k] != 13u8 by {
            assert(u[k] == t[k + 1]);
        }
        lemma_run_line(u, seq![13u8] + (seq![10u8] + r2));
        lemma_run_cons(ChunkState::Trailer, 13u8, seq![10u8] + r2);
        lemma_run_cons(ChunkState::TrailerLf, 10u8, r2);
        assert forall|i: int| 0 <= i < more.len() implies valid_trailer(#[trigger] more[i]) by {
            assert(more[i] == ts[i + 1]);
        }
        lemma_run_trailers(more, rest);
        let x = run(ChunkState::TrailerStart, rest);
        let e = Seq::<u8>::empty();
        assert(opt_seq(None) =~= e);
        assert(e + e =~= e);
        lemma_after_after(e, 1, e, encode_trailers(more).len(), x);
        lemma_after_after(e, 1, e, 1 + encode_trailers(more).len(), x);
        lemma_after_after(e, u.len(), e, 2 + encode_trailers(more).len(), x);
        lemma_after_after(e, 1, e, u.len() + 2 + encode_trailers(more).len(), x);
    }
}

proof fn lemma_run_chunks(cs: Seq<(Seq<u8>, Seq<u8>)>, rest: Seq<u8>)
    requires
        forall|i: int| 0 <= i < cs.len() ==> valid_chunk(#[trigger] cs[i]),
        forall|i: int| 0 <= i < cs.len() ==> (#[trigger] cs[i]).1.len() <= u64::MAX,
    ensures
        run(start(), encode_chunks(cs) + rest) == after(payload(cs), encode_chunks(cs).len(), run(start(), rest)),
    decreases cs.len(),
{
    if cs.len() == 0 {
        assert(encode_chunks(cs) + rest =~= rest);
        lemma_after_empty(run(start(), rest));
    } else {
        let (ds, data) = cs[0];
        assert(valid_chunk(cs[0]));
        let more = cs.drop_first();
        let r2 = encode_chunks(more) + rest;
        let n = data.len() as u64;
        assert(encode_chunks(cs) + rest =~= ds + (seq![13u8] + (seq![10u8] + (data + (seq![13u8] + (seq![10u8] + r2))))));
        lemma_run_digits(0, false, ds, seq![13u8] + (seq![10u8] + (data + (seq![13u8] + (seq![10u8] + r2)))));
        lemma_run_cons(ChunkState::Size { value: n, digits: true }, 13u8, seq![10u8] + (data + (seq![13u8] + (seq![10u8] + r2))));
        lemma_run_cons(ChunkState::SizeLf { value: n }, 10u8, data + (seq![13u8] + (seq![10u8] + r2)));
        lemma_run_data(n, data, seq![13u8] + (seq![10u8] + r2));
        lemma_run_cons(ChunkState::DataCr, 13u8, seq![10u8] + r2);
        lemma_run_cons(ChunkState::DataLf, 10u8, r2);
        assert forall|i: int| 0 <= i < more.len() implies valid_chunk(#[trigger] more[i]) && more[i].1.len() <= u64::MAX by {
            assert(more[i] == cs[i + 1]);
        }
        lemma_run_chunks(more, rest);
        let x = run(start(), rest);
        let e = Seq::<u8>::empty();
        let m = encode_chunks(more).len();
        assert(opt_seq(None) =~= e);
        assert(e + e =~= e);
        lemma_after_after(e, 1, payload(more), m, x);
        lemma_after_after(e, 1, payload(more), 1 + m, x);
        lemma_after_after(data, data.len(), payload(more), 2 + m, x);
        lemma_after_after(e, 1, data + payload(more), data.len() + 2 + m, x);
        lemma_after_after(e, 1, data + payload(more), 1 + data.len() + 2 + m, x);
        lemma_after_after(e, ds.len(), data + payload(more), 2 + data.len() + 2 + m, x);
        assert(e + (data + payload(more)) =~= data + payload(more));
    }
}

/// A chunked body of several chunks and trailers decodes to the payload the
/// chunks carry, the same bytes a body of that length would carry; decoding
/// stops right after the terminating chunk and its trailers, once, and
/// leaves whatever follows for the next message.
pub proof fn lemma_chunked_round_trip(cs: Seq<(Seq<u8>, Seq<u8>)>, ts: Seq<Seq<u8>>, rest: Seq<u8>)
    requires
        forall|i: int| 0 <= i < cs.len() ==> valid_chunk(#[trigger] cs[i]),
        forall|i: int| 0 <= i < cs.len() ==> (#[trigger] cs[i]).1.len() <= u64::MAX,
        forall|i: int| 0 <= i < ts.len() ==> valid_trailer(#[trigger] ts[i]),
    ensures
        run(start(), chunked_body(cs, ts) + rest) == Some(
            (ChunkState::Done, payload(cs), chunked_body(cs, ts).len()),
        ),
{
    let tr = encode_trailers(ts);
    let r5 = seq![13u8] + (seq![10u8] + rest);
    let r4 = tr + r5;
    let r3 = seq![13u8] + (seq![10u8] + r4);
    let r2 = seq![48u8] + r3;
    assert(chunked_body(cs, ts) + rest =~= encode_chunks(cs) + r2);
    lemma_run_chunks(cs, r2);
    assert(hex_acc(0, seq![48u8]) == 0) by {
        assert(seq![48u8].drop_first() =~= Seq::<u8>::empty());
        assert(hex_digit(48u8) == Some(0u8));
        assert(seq![48u8][0] == 48u8);
        assert(hex_acc(0, Seq::<u8>::empty()) == 0);
    }
    assert(all_hex(seq![48u8]));
    lemma_run_digits(0, false, seq![48u8], r3);
    lemma_run_cons(ChunkState::Size { value: 0, digits: true }, 13u8, seq![10u8] + r4);
    lemma_run_cons(ChunkState::SizeLf { value: 0 }, 10u8, r4);
    lemma_run_trailers(ts, r5);
    lemma_run_cons(ChunkState::TrailerStart, 13u8, seq![10u8] + rest);
    lemma_run_cons(ChunkState::EndLf, 10u8, rest);
    assert(run(ChunkState::Done, rest) == Some((ChunkState::Done, Seq::<u8>::empty(), 0nat)));
    let e = Seq::<u8>::empty();
    assert(opt_seq(None) =~= e);
    assert(e + e =~= e);
    assert(payload(cs) + e =~= payload(cs));
}

} // verus!
