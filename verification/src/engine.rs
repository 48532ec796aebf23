//! The stream engine: drives the compress and decompress control loops over
//! chunked buffers, using the window, the match finder and the token codec.
//!
//! The engine works chunk by chunk: an external byte source hands it blocks
//! of input, the engine returns the bytes to emit, and the window persists
//! across chunks. On the compress side a whole chunk is consumed per call
//! and matches never extend past the available chunk. On the decompress side
//! a 2-byte token may straddle a chunk boundary, so the engine carries the
//! unpaired byte over to the next call; an unpaired byte left at the very
//! end of the stream is a truncated token and is treated as end of stream,
//! not as an error.

use vstd::prelude::*;

use crate::finder::find_match;
use crate::finder::find_match_spec;
use crate::finder::lemma_find_match_valid;
use crate::finder::match_valid;
use crate::token::Token;
use crate::token::decode_token;
use crate::token::encode_token;
use crate::token::lit_token_bytes;
use crate::token::ref_bounds;
use crate::token::ref_token_bytes;
use crate::window::WINDOW_SIZE;
use crate::window::Window;
use crate::window::lemma_win_add_seq_wf;
use crate::window::win_add;
use crate::window::win_add_seq;
use crate::window::zero_win;

verus! {

/// Outcome of one refill of the input chunk: whether the endpoint handed
/// back more bytes, or is exhausted and the run is over.
#[derive(PartialEq, Eq, Structural, Clone, Copy, Debug)]
pub enum BufferState {
    NotEmpty,
    Empty,
}

impl BufferState {
    pub fn is_eof(&self) -> (r: bool)
        ensures
            r == (*self == BufferState::Empty),
    {
        match self {
            BufferState::Empty => true,
            BufferState::NotEmpty => false,
        }
    }
}

/// The whole compression transform, as a function of the starting window
/// state and the input from position `cur` on. Returns the emitted token
/// bytes and the window state after all input is consumed.
///
/// Each step asks the match finder for the best reference at the cursor;
/// a match is emitted as one reference token and the matched input bytes are
/// appended to the window, otherwise the byte at the cursor is emitted as a
/// literal token and appended alone.
pub open spec fn comp(w: Seq<u8>, p: nat, input: Seq<u8>, cur: nat) -> (Seq<u8>, Seq<u8>, nat)
    decreases input.len() - cur,
        when w.len() == WINDOW_SIZE as nat && p < WINDOW_SIZE as nat && cur <= input.len()
        via comp_decreases
{
    if cur >= input.len() {
        (Seq::<u8>::empty(), w, p)
    } else {
        match find_match_spec(w, input, cur as int) {
            Option::Some((o, l)) => {
                let matched = input.subrange(cur as int, cur + l as int);
                let stepped = win_add_seq(w, p, matched);
                let rest = comp(stepped.0, stepped.1, input, (cur + l) as nat);
                (ref_token_bytes(o, l as int) + rest.0, rest.1, rest.2)
            },
            Option::None => {
                let b = input[cur as int];
                let stepped = win_add(w, p, b);
                let rest = comp(stepped.0, stepped.1, input, cur + 1);
                (lit_token_bytes(b) + rest.0, rest.1, rest.2)
            },
        }
    }
}

#[via_fn]
proof fn comp_decreases(w: Seq<u8>, p: nat, input: Seq<u8>, cur: nat) {
    if cur < input.len() {
        lemma_find_match_valid(w, input, cur as int);
        if let Option::Some((o, l)) = find_match_spec(w, input, cur as int) {
            lemma_win_add_seq_wf(w, p, input.subrange(cur as int, cur + l as int));
        }
    }
}

/// The whole decompression transform, as a function of the starting window
/// state and the remaining wire bytes. Returns the decoded bytes and the
/// window state after the stream is consumed.
///
/// Tokens are read two bytes at a time; fewer than two remaining bytes is
/// end of stream (a truncated token decodes to nothing). A zero high byte is
/// a literal; anything else splits into offset and length, and the
/// referenced bytes are all read from the window state as it was before this
/// token (read before write-back), then appended.
pub open spec fn decomp(w: Seq<u8>, p: nat, s: Seq<u8>) -> (Seq<u8>, Seq<u8>, nat)
    decreases s.len(),
{
    if s.len() < 2 {
        (Seq::<u8>::empty(), w, p)
    } else if s[0] == 0 {
        let stepped = win_add(w, p, s[1]);
        let rest = decomp(stepped.0, stepped.1, s.skip(2));
        (seq![s[1]] + rest.0, rest.1, rest.2)
    } else {
        let v = (s[0] as int) * 256 + (s[1] as int);
        let o = v / 32;
        let l = (v % 32) as nat;
        let referenced = Seq::new(l, |k: int| w[(o + k) % (WINDOW_SIZE as int)]);
        let stepped = win_add_seq(w, p, referenced);
        let rest = decomp(stepped.0, stepped.1, s.skip(2));
        (referenced + rest.0, rest.1, rest.2)
    }
}

/// Compression state that persists across chunks: the history window.
pub struct Compressor {
    window: Window,
}

impl Compressor {
    pub closed spec fn wf(&self) -> bool {
        self.window.wf() && self.window.contents().len() == WINDOW_SIZE
    }

    pub closed spec fn win(&self) -> Seq<u8> {
        self.window.contents()
    }

    pub closed spec fn pos(&self) -> nat {
        self.window.wpos()
    }

    /// A fresh run: zero-filled window, write position at slot zero.
    pub fn new() -> (c: Compressor)
        ensures
            c.wf(),
            c.win() == zero_win(),
            c.pos() == 0,
    {
        let w = Window::new(WINDOW_SIZE);
        proof {
            assert(w.contents() =~= zero_win());
        }
        Compressor { window: w }
    }

    /// Consumes one whole input chunk and returns the token bytes it emits.
    /// The window carries over, so later chunks may reference bytes of
    /// earlier ones; a match never extends past the chunk handed in, because
    /// only those lookahead bytes are available.
    pub fn compress_chunk(&mut self, chunk: &Vec<u8>) -> (out: Vec<u8>)
        requires
            old(self).wf(),
        ensures
            final(self).wf(),
            out@ == comp(old(self).win(), old(self).pos(), chunk@, 0).0,
            final(self).win() == comp(old(self).win(), old(self).pos(), chunk@, 0).1,
            final(self).pos() == comp(old(self).win(), old(self).pos(), chunk@, 0).2,
    {
        let ghost w0 = self.win();
        let ghost p0 = self.pos();
        let n = chunk.len();
        let mut out: Vec<u8> = Vec::new();
        let mut cur: usize = 0;
        while cur < n
            invariant
                self.wf(),
                w0.len() == WINDOW_SIZE as nat,
                p0 < WINDOW_SIZE as nat,
                cur <= chunk@.len(),
                n == chunk@.len(),
                comp(w0, p0, chunk@, 0).0 == out@ + comp(
                    self.win(),
                    self.pos(),
                    chunk@,
                    cur as nat,
                ).0,
                comp(w0, p0, chunk@, 0).1 == comp(self.win(), self.pos(), chunk@, cur as nat).1,
                comp(w0, p0, chunk@, 0).2 == comp(self.win(), self.pos(), chunk@, cur as nat).2,
            decreases chunk@.len() - cur,
        {
            let ghost wc = self.win();
            let ghost pc = self.pos();
            let ghost cur0 = cur as nat;
            let ghost out0 = out@;
            proof {
                lemma_find_match_valid(wc, chunk@, cur as int);
            }
            let m = find_match(&self.window, chunk, cur);
            match m {
                Option::Some(mm) => {
                    let ghost o = mm.offset as int;
                    let ghost l = mm.len as nat;
                    proof {
                        assert(find_match_spec(wc, chunk@, cur as int) == Option::Some((o, l)));
                        assert(match_valid(wc, chunk@, cur as int, o, l));
                        assert(ref_bounds(o, l as int));
                        assert(cur + l <= chunk@.len());
                    }
                    let tok = encode_token(
                        &Token::Reference { offset: mm.offset, length: mm.len },
                    );
                    out.push(tok.0);
                    out.push(tok.1);
                    let mlen = mm.len as usize;
                    let mut matched: Vec<u8> = Vec::new();
                    let mut k: usize = 0;
                    while k < mlen
                        invariant
                            k <= mlen,
                            cur + mlen <= chunk@.len(),
                            n == chunk@.len(),
                            matched@ == chunk@.subrange(cur as int, cur as int + k as int),
                        decreases mlen - k,
                    {
                        let b = chunk[cur + k];
                        matched.push(b);
                        k += 1;
                        proof {
                            assert(matched@ =~= chunk@.subrange(cur as int, cur as int + k as int));
                        }
                    }
                    self.window.add_bytes(matched.as_slice());
                    cur += mlen;
                    proof {
                        let sub = chunk@.subrange(cur0 as int, cur0 as int + l as int);
                        lemma_win_add_seq_wf(wc, pc, sub);
                        let rest = comp(self.win(), self.pos(), chunk@, cur as nat);
                        assert(comp(wc, pc, chunk@, cur0) == (
                            ref_token_bytes(o, l as int) + rest.0,
                            rest.1,
                            rest.2,
                        ));
                        assert(out@ =~= out0 + ref_token_bytes(o, l as int));
                        assert(out0 + (ref_token_bytes(o, l as int) + rest.0) =~= out@ + rest.0);
                    }
                },
                Option::None => {
                    let b = chunk[cur];
                    let tok = encode_token(&Token::Literal(b));
                    out.push(tok.0);
                    out.push(tok.1);
                    self.window.add_byte(b);
                    cur += 1;
                    proof {
                        let rest = comp(self.win(), self.pos(), chunk@, cur as nat);
                        assert(comp(wc, pc, chunk@, cur0) == (
                            lit_token_bytes(chunk@[cur0 as int]) + rest.0,
                            rest.1,
                            rest.2,
                        ));
                        assert(out@ =~= out0 + lit_token_bytes(chunk@[cur0 as int]));
                        assert(out0 + (lit_token_bytes(chunk@[cur0 as int]) + rest.0) =~= out@
                            + rest.0);
                    }
                },
            }
        }
        proof {
            assert(comp(self.win(), self.pos(), chunk@, cur as nat).0 == Seq::<u8>::empty());
            assert(out@ + Seq::<u8>::empty() =~= out@);
        }
        out
    }
}

/// Decompression state that persists across chunks: the history window and
/// the unpaired first byte of a token that straddled a chunk boundary.
pub struct Decompressor {
    window: Window,
    pending: Option<u8>,
}

impl Decompressor {
    pub closed spec fn wf(&self) -> bool {
        self.window.wf() && self.window.contents().len() == WINDOW_SIZE
    }

    pub closed spec fn win(&self) -> Seq<u8> {
        self.window.contents()
    }

    pub closed spec fn pos(&self) -> nat {
        self.window.wpos()
    }

    /// The carried-over unpaired token byte, as a sequence of length 0 or 1.
    pub closed spec fn pending_bytes(&self) -> Seq<u8> {
        match self.pending {
            Option::None => Seq::<u8>::empty(),
            Option::Some(b) => seq![b],
        }
    }

    /// A fresh run: zero-filled window, write position at slot zero, no
    /// carried byte.
    pub fn new() -> (d: Decompressor)
        ensures
            d.wf(),
            d.win() == zero_win(),
            d.pos() == 0,
            d.pending_bytes() == Seq::<u8>::empty(),
    {
        let w = Window::new(WINDOW_SIZE);
        proof {
            assert(w.contents() =~= zero_win());
        }
        Decompressor { window: w, pending: Option::None }
    }

    /// Decodes one chunk of wire bytes, prefixed by the unpaired byte left
    /// over from the previous chunk, and returns the decoded output bytes.
    /// When the combined stream has odd length the trailing byte is carried
    /// over to the next call; if the stream ends there, that truncated token
    /// is silently dropped, as exhaustion is the only end-of-stream signal.
    #[verifier::rlimit(50)]
    pub fn decompress_chunk(&mut self, chunk: &Vec<u8>) -> (out: Vec<u8>)
        requires
            old(self).wf(),
            chunk@.len() <= usize::MAX - 2,
        ensures
            final(self).wf(),
            ({
                let s = old(self).pending_bytes() + chunk@;
                let d = decomp(old(self).win(), old(self).pos(), s);
                &&& out@ == d.0
                &&& final(self).win() == d.1
                &&& final(self).pos() == d.2
                &&& final(self).pending_bytes() == (if s.len() % 2 == 1 {
                    seq![s[s.len() - 1]]
                } else {
                    Seq::<u8>::empty()
                })
            }),
    {
        let ghost pend0 = self.pending_bytes();
        let ghost w0 = self.win();
        let ghost p0 = self.pos();
        let mut s: Vec<u8> = Vec::new();
        match self.pending {
            Option::Some(b) => {
                s.push(b);
            },
            Option::None => {},
        }
        let mut j: usize = 0;
        while j < chunk.len()
            invariant
                j <= chunk@.len(),
                s@ == pend0 + chunk@.subrange(0, j as int),
                pend0.len() <= 1,
            decreases chunk@.len() - j,
        {
            let b = chunk[j];
            s.push(b);
            j += 1;
            proof {
                assert(s@ =~= pend0 + chunk@.subrange(0, j as int));
            }
        }
        proof {
            assert(s@ =~= pend0 + chunk@);
            assert(s@.skip(0) =~= s@);
        }
        let mut out: Vec<u8> = Vec::new();
        let mut cur: usize = 0;
        while cur + 1 < s.len()
            invariant
                self.wf(),
                cur <= s@.len(),
                cur % 2 == 0,
                s@.len() <= usize::MAX - 1,
                decomp(w0, p0, s@).0 == out@ + decomp(self.win(), self.pos(), s@.skip(cur as int)).0,
                decomp(w0, p0, s@).1 == decomp(self.win(), self.pos(), s@.skip(cur as int)).1,
                decomp(w0, p0, s@).2 == decomp(self.win(), self.pos(), s@.skip(cur as int)).2,
            decreases s@.len() - cur,
        {
            let ghost wc = self.win();
            let ghost pc = self.pos();
            let ghost cur0 = cur as int;
            let ghost out0 = out@;
            let ghost rem = s@.skip(cur0);
            proof {
                assert(rem[0] == s@[cur0]);
                assert(rem[1] == s@[cur0 + 1]);
                assert(rem.skip(2) =~= s@.skip(cur0 + 2));
            }
            let b0 = s[cur];
            let b1 = s[cur + 1];
            match decode_token(b0, b1) {
                Token::Literal(lit) => {
                    proof {
                        assert(b0 == 0 && lit == b1);
                    }
                    out.push(lit);
                    self.window.add_byte(lit);
                    proof {
                        let rest = decomp(self.win(), self.pos(), s@.skip(cur0 + 2));
                        assert(decomp(wc, pc, rem) == (seq![b1] + rest.0, rest.1, rest.2));
                        assert(out@ =~= out0 + seq![b1]);
                        assert(out0 + (seq![b1] + rest.0) =~= out@ + rest.0);
                    }
                },
                Token::Reference { offset, length } => {
                    let ghost v = (b0 as int) * 256 + (b1 as int);
                    proof {
                        assert(b0 != 0);
                        assert(offset as int == v / 32 && length as int == v % 32);
                        assert(offset <= 2047 && length <= 31);
                    }
                    let off = offset as usize;
                    let l = length as usize;
                    let ghost referenced = Seq::new(
                        l as nat,
                        |k: int| wc[(off + k) % (WINDOW_SIZE as int)],
                    );
                    let mut tmp: Vec<u8> = Vec::new();
                    let mut k: usize = 0;
                    while k < l
                        invariant
                            k <= l,
                            l <= 31,
                            off <= 2047,
                            self.wf(),
                            self.win() == wc,
                            tmp@ == referenced.subrange(0, k as int),
                            referenced == Seq::new(
                                l as nat,
                                |kk: int| wc[(off + kk) % (WINDOW_SIZE as int)],
                            ),
                        decreases l - k,
                    {
                        let b = self.window.get_byte(off + k);
                        tmp.push(b);
                        k += 1;
                        proof {
                            assert(tmp@ =~= referenced.subrange(0, k as int));
                        }
                    }
                    proof {
                        assert(tmp@ =~= referenced);
                        lemma_win_add_seq_wf(wc, pc, referenced);
                    }
                    self.window.add_bytes(tmp.as_slice());
                    let mut k2: usize = 0;
                    while k2 < l
                        invariant
                            k2 <= l,
                            l == tmp@.len(),
                            out@ == out0 + tmp@.subrange(0, k2 as int),
                            tmp@ == referenced,
                        decreases l - k2,
                    {
                        let b = tmp[k2];
                        out.push(b);
                        k2 += 1;
                        proof {
                            assert(out@ =~= out0 + tmp@.subrange(0, k2 as int));
                        }
                    }
                    proof {
                        assert(out@ =~= out0 + referenced);
                        let rest = decomp(self.win(), self.pos(), s@.skip(cur0 + 2));
                        assert(decomp(wc, pc, rem) == (referenced + rest.0, rest.1, rest.2));
                        assert(out0 + (referenced + rest.0) =~= out@ + rest.0);
                    }
                },
            }
            cur += 2;
        }
        if cur < s.len() {
            let b = s[cur];
            self.pending = Option::Some(b);
            proof {
                assert(s@.len() % 2 == 1);
                assert(s@[cur as int] == s@[s@.len() - 1]);
                assert(decomp(self.win(), self.pos(), s@.skip(cur as int)).0 == Seq::<u8>::empty());
            }
        } else {
            self.pending = Option::None;
            proof {
                assert(s@.len() % 2 == 0);
                assert(decomp(self.win(), self.pos(), s@.skip(cur as int)).0 == Seq::<u8>::empty());
            }
        }
        proof {
            assert(out@ + Seq::<u8>::empty() =~= out@);
        }
        out
    }
}

/// Compresses a whole in-memory byte stream with a fresh window.
pub fn compress(input: &Vec<u8>) -> (out: Vec<u8>)
    ensures
        out@ == comp(zero_win(), 0, input@, 0).0,
{
    let mut c = Compressor::new();
    c.compress_chunk(input)
}

/// Decompresses a whole in-memory wire stream with a fresh window. A
/// trailing unpaired byte is a truncated token and decodes to nothing.
pub fn decompress(input: &Vec<u8>) -> (out: Vec<u8>)
    requires
        input@.len() <= usize::MAX - 2,
    ensures
        out@ == decomp(zero_win(), 0, input@).0,
{
    let mut d = Decompressor::new();
    proof {
        assert(Seq::<u8>::empty() + input@ =~= input@);
    }
    d.decompress_chunk(input)
}

} // verus!
