//! The laws the codec obeys, stated over the spec-level transforms `comp`
//! and `decomp` and proved once and for all.

use vstd::prelude::*;

use crate::engine::comp;
use crate::engine::decomp;
use crate::finder::MAX_MATCH_LEN;
use crate::finder::MIN_OFFSET;
use crate::finder::find_match_spec;
use crate::finder::lemma_find_match_valid;
use crate::finder::scan;
use crate::token::lemma_ref_token_shape;
use crate::token::lit_token_bytes;
use crate::token::ref_bounds;
use crate::token::ref_token_bytes;
use crate::token::ref_value;
use crate::window::WINDOW_SIZE;
use crate::window::lemma_win_add_seq_wf;
use crate::window::win_add;
use crate::window::win_add_seq;
use crate::window::zero_win;

verus! {

/// Round trip from an arbitrary common window state: decompressing what
/// compression emitted reproduces the remaining input exactly, and both
/// sides leave the window in the same state.
pub proof fn lemma_round_trip_from(w: Seq<u8>, p: nat, input: Seq<u8>, cur: nat)
    requires
        w.len() == WINDOW_SIZE as nat,
        p < WINDOW_SIZE as nat,
        cur <= input.len(),
    ensures
        decomp(w, p, comp(w, p, input, cur).0).0 == input.skip(cur as int),
        decomp(w, p, comp(w, p, input, cur).0).1 == comp(w, p, input, cur).1,
        decomp(w, p, comp(w, p, input, cur).0).2 == comp(w, p, input, cur).2,
    decreases input.len() - cur,
{
    if cur >= input.len() {
        assert(input.skip(cur as int) =~= Seq::<u8>::empty());
    } else {
        lemma_find_match_valid(w, input, cur as int);
        match find_match_spec(w, input, cur as int) {
            Option::Some((o, l)) => {
                let matched = input.subrange(cur as int, cur as int + l as int);
                let stepped = win_add_seq(w, p, matched);
                lemma_win_add_seq_wf(w, p, matched);
                lemma_round_trip_from(stepped.0, stepped.1, input, (cur + l) as nat);
                let rest = comp(stepped.0, stepped.1, input, (cur + l) as nat);
                let s = comp(w, p, input, cur).0;
                let tb = ref_token_bytes(o, l as int);
                assert(s == tb + rest.0);
                lemma_ref_token_shape(o, l as int);
                assert(s[0] == tb[0] && s[1] == tb[1]);
                let v = (s[0] as int) * 256 + (s[1] as int);
                assert(v == ref_value(o, l as int));
                let referenced = Seq::new(l, |k: int| w[(o + k) % (WINDOW_SIZE as int)]);
                assert(referenced =~= matched) by {
                    assert(forall|k: int|
                        0 <= k < l ==> matched[k] == #[trigger] input[cur + k]);
                }
                assert(s.skip(2) =~= rest.0);
                assert(decomp(w, p, s).0 == referenced + decomp(stepped.0, stepped.1, rest.0).0);
                assert(matched + input.skip(cur as int + l as int) =~= input.skip(cur as int));
            },
            Option::None => {
                let b = input[cur as int];
                let stepped = win_add(w, p, b);
                lemma_round_trip_from(stepped.0, stepped.1, input, cur + 1);
                let rest = comp(stepped.0, stepped.1, input, cur + 1);
                let s = comp(w, p, input, cur).0;
                assert(s == lit_token_bytes(b) + rest.0);
                assert(s[0] == 0 && s[1] == b);
                assert(s.skip(2) =~= rest.0);
                assert(decomp(w, p, s).0 == seq![b] + decomp(stepped.0, stepped.1, rest.0).0);
                assert(seq![b] + input.skip(cur as int + 1) =~= input.skip(cur as int));
            },
        }
    }
}

/// Round trip: for every finite byte sequence, the empty one included,
/// decompressing the compressed stream yields the original sequence.
pub proof fn lemma_round_trip(input: Seq<u8>)
    ensures
        decomp(zero_win(), 0, comp(zero_win(), 0, input, 0).0).0 == input,
{
    lemma_round_trip_from(zero_win(), 0, input, 0);
    assert(input.skip(0) =~= input);
}

/// The wire-level shape of one token: a zero high byte is a literal, and
/// any other token reassembles into a value whose offset part and length
/// part are within the reference bounds.
pub open spec fn token_ok(b0: u8, b1: u8) -> bool {
    b0 != 0 ==> ref_bounds(
        ((b0 as int) * 256 + (b1 as int)) / 32,
        ((b0 as int) * 256 + (b1 as int)) % 32,
    )
}

/// A well-formed wire stream: an even number of bytes, every 2-byte token
/// within bounds.
pub open spec fn wire_ok(s: Seq<u8>) -> bool
    decreases s.len(),
{
    if s.len() == 0 {
        true
    } else if s.len() == 1 {
        false
    } else {
        token_ok(s[0], s[1]) && wire_ok(s.skip(2))
    }
}

/// Everything compression emits is a well-formed wire stream, from any
/// window state.
pub proof fn lemma_comp_wire_ok(w: Seq<u8>, p: nat, input: Seq<u8>, cur: nat)
    requires
        w.len() == WINDOW_SIZE as nat,
        p < WINDOW_SIZE as nat,
        cur <= input.len(),
    ensures
        wire_ok(comp(w, p, input, cur).0),
    decreases input.len() - cur,
{
    if cur < input.len() {
        lemma_find_match_valid(w, input, cur as int);
        match find_match_spec(w, input, cur as int) {
            Option::Some((o, l)) => {
                let matched = input.subrange(cur as int, cur as int + l as int);
                let stepped = win_add_seq(w, p, matched);
                lemma_win_add_seq_wf(w, p, matched);
                lemma_comp_wire_ok(stepped.0, stepped.1, input, (cur + l) as nat);
                let rest = comp(stepped.0, stepped.1, input, (cur + l) as nat);
                let s = comp(w, p, input, cur).0;
                let tb = ref_token_bytes(o, l as int);
                assert(s == tb + rest.0);
                lemma_ref_token_shape(o, l as int);
                assert(token_ok(s[0], s[1]));
                assert(s.skip(2) =~= rest.0);
            },
            Option::None => {
                let b = input[cur as int];
                let stepped = win_add(w, p, b);
                lemma_comp_wire_ok(stepped.0, stepped.1, input, cur + 1);
                let rest = comp(stepped.0, stepped.1, input, cur + 1);
                let s = comp(w, p, input, cur).0;
                assert(s == lit_token_bytes(b) + rest.0);
                assert(s[0] == 0);
                assert(s.skip(2) =~= rest.0);
            },
        }
    }
}

/// A well-formed wire stream, read by pairs: even length, and every token
/// that starts at an even index is within bounds.
pub proof fn lemma_wire_ok_indexed(s: Seq<u8>)
    requires
        wire_ok(s),
    ensures
        s.len() % 2 == 0,
        forall|j: int|
            0 <= j && j % 2 == 0 && j + 1 < s.len() ==> token_ok(#[trigger] s[j], s[j + 1]),
    decreases s.len(),
{
    if s.len() >= 2 {
        lemma_wire_ok_indexed(s.skip(2));
        assert forall|j: int|
            0 <= j && j % 2 == 0 && j + 1 < s.len() implies token_ok(#[trigger] s[j], s[j + 1]) by {
            if j >= 2 {
                assert((j - 2) % 2 == 0);
                assert(s.skip(2)[j - 2] == s[j]);
                assert(s.skip(2)[j - 2 + 1] == s[j + 1]);
                assert(token_ok(s.skip(2)[j - 2], s.skip(2)[j - 2 + 1]));
            }
        }
    }
}

/// Token size invariant: the compressed output is always an even number of
/// bytes, since every token is exactly two bytes.
pub proof fn lemma_token_size_even(input: Seq<u8>)
    ensures
        comp(zero_win(), 0, input, 0).0.len() % 2 == 0,
{
    lemma_comp_wire_ok(zero_win(), 0, input, 0);
    lemma_wire_ok_indexed(comp(zero_win(), 0, input, 0).0);
}

/// Offset floor: no emitted reference token ever decodes to an offset below
/// `MIN_OFFSET` (nor at or above the window capacity).
pub proof fn lemma_offset_floor(input: Seq<u8>)
    ensures
        ({
            let s = comp(zero_win(), 0, input, 0).0;
            forall|j: int|
                0 <= j && j % 2 == 0 && j + 1 < s.len() && #[trigger] s[j] != 0 ==> {
                    let v = (s[j] as int) * 256 + (s[j + 1] as int);
                    MIN_OFFSET as int <= v / 32 < WINDOW_SIZE as int
                }
        }),
{
    lemma_comp_wire_ok(zero_win(), 0, input, 0);
    lemma_wire_ok_indexed(comp(zero_win(), 0, input, 0).0);
}

/// Length bound: no emitted reference token ever decodes to a length below 2
/// or above `MAX_MATCH_LEN`.
pub proof fn lemma_length_bound(input: Seq<u8>)
    ensures
        ({
            let s = comp(zero_win(), 0, input, 0).0;
            forall|j: int|
                0 <= j && j % 2 == 0 && j + 1 < s.len() && #[trigger] s[j] != 0 ==> {
                    let v = (s[j] as int) * 256 + (s[j + 1] as int);
                    2 <= v % 32 <= MAX_MATCH_LEN as int
                }
        }),
{
    lemma_comp_wire_ok(zero_win(), 0, input, 0);
    lemma_wire_ok_indexed(comp(zero_win(), 0, input, 0).0);
}

/// Streaming equals one-shot: a wire stream cut after whole tokens decodes
/// piecewise — the first piece from the starting window, the second from the
/// window state the first piece left behind — to exactly what the whole
/// stream decodes to. This is what lets the decompressor work chunk by
/// chunk, carrying only the window and an unpaired byte.
pub proof fn lemma_decomp_append(w: Seq<u8>, p: nat, a: Seq<u8>, b: Seq<u8>)
    requires
        a.len() % 2 == 0,
    ensures
        ({
            let d = decomp(w, p, a);
            let rest = decomp(d.1, d.2, b);
            decomp(w, p, a + b) == (d.0 + rest.0, rest.1, rest.2)
        }),
    decreases a.len(),
{
    let d = decomp(w, p, a);
    let rest = decomp(d.1, d.2, b);
    if a.len() == 0 {
        assert(a + b =~= b);
        assert(Seq::<u8>::empty() + rest.0 =~= rest.0);
    } else {
        let s = a + b;
        assert(s[0] == a[0] && s[1] == a[1]);
        assert(s.skip(2) =~= a.skip(2) + b);
        assert(a.skip(2).len() % 2 == 0);
        if a[0] == 0 {
            let stepped = win_add(w, p, a[1]);
            lemma_decomp_append(stepped.0, stepped.1, a.skip(2), b);
            let tail = decomp(stepped.0, stepped.1, a.skip(2));
            assert(d == (seq![a[1]] + tail.0, tail.1, tail.2));
            assert(seq![a[1]] + (tail.0 + rest.0) =~= (seq![a[1]] + tail.0) + rest.0);
        } else {
            let v = (a[0] as int) * 256 + (a[1] as int);
            let referenced = Seq::new(
                (v % 32) as nat,
                |k: int| w[(v / 32 + k) % (WINDOW_SIZE as int)],
            );
            let stepped = win_add_seq(w, p, referenced);
            lemma_decomp_append(stepped.0, stepped.1, a.skip(2), b);
            let tail = decomp(stepped.0, stepped.1, a.skip(2));
            assert(d == (referenced + tail.0, tail.1, tail.2));
            assert(referenced + (tail.0 + rest.0) =~= (referenced + tail.0) + rest.0);
        }
    }
}

/// A stream of literal tokens only: two output bytes per input byte, a zero
/// high byte before each.
pub open spec fn lit_stream(t: Seq<u8>) -> Seq<u8> {
    Seq::new(
        2 * t.len(),
        |i: int|
            if i % 2 == 0 {
                0u8
            } else {
                t[i / 2]
            },
    )
}

/// When no slot at or above the offset floor holds the cursor byte, the scan
/// records no candidate at all.
proof fn lemma_scan_no_candidate(
    w: Seq<u8>,
    input: Seq<u8>,
    cur: int,
    i: int,
    budget: nat,
    best: Option<(int, nat)>,
)
    requires
        i < WINDOW_SIZE as int,
        forall|j: int| MIN_OFFSET as int <= j < WINDOW_SIZE as int ==> #[trigger] w[j] != input[cur],
    ensures
        scan(w, input, cur, i, budget, best) == best,
    decreases i,
{
    if i >= MIN_OFFSET as int && budget > 0 {
        lemma_scan_no_candidate(w, input, cur, i - 1, budget, best);
    }
}

proof fn lemma_short_all_literals_from(w: Seq<u8>, p: nat, input: Seq<u8>, cur: nat)
    requires
        w.len() == WINDOW_SIZE as nat,
        cur <= input.len(),
        p + (input.len() - cur) <= MIN_OFFSET as nat,
        forall|j: int| MIN_OFFSET as int <= j < WINDOW_SIZE as int ==> #[trigger] w[j] == 0,
        forall|i: int| cur <= i < input.len() ==> #[trigger] input[i] != 0,
    ensures
        comp(w, p, input, cur).0 == lit_stream(input.skip(cur as int)),
    decreases input.len() - cur,
{
    if cur >= input.len() {
        assert(lit_stream(input.skip(cur as int)) =~= Seq::<u8>::empty());
    } else {
        lemma_scan_no_candidate(
            w,
            input,
            cur as int,
            WINDOW_SIZE as int - 1,
            crate::finder::MAX_CANDIDATES as nat,
            Option::None,
        );
        assert(find_match_spec(w, input, cur as int) is None);
        let b = input[cur as int];
        let stepped = win_add(w, p, b);
        assert(stepped.1 == p + 1) by {
            assert(0 <= p + 1 < WINDOW_SIZE as nat);
        }
        assert(forall|j: int|
            MIN_OFFSET as int <= j < WINDOW_SIZE as int ==> #[trigger] stepped.0[j] == 0);
        lemma_short_all_literals_from(stepped.0, stepped.1, input, cur + 1);
        let rest = comp(stepped.0, stepped.1, input, cur + 1);
        assert(comp(w, p, input, cur).0 == lit_token_bytes(b) + rest.0);
        assert(lit_token_bytes(b) + lit_stream(input.skip(cur as int + 1)) =~= lit_stream(
            input.skip(cur as int),
        )) by {
            let lhs = lit_token_bytes(b) + lit_stream(input.skip(cur as int + 1));
            let rhs = lit_stream(input.skip(cur as int));
            assert(lhs.len() == rhs.len());
            assert forall|i: int| 0 <= i < rhs.len() implies lhs[i] == rhs[i] by {
                if i >= 2 {
                    if i % 2 == 1 {
                        assert((i - 2) % 2 == 1);
                        assert((i - 2) / 2 == i / 2 - 1);
                        assert(input.skip(cur as int + 1)[(i - 2) / 2] == input[cur + 1 + (i - 2)
                            / 2]);
                        assert(input.skip(cur as int)[i / 2] == input[cur + i / 2]);
                    } else {
                        assert((i - 2) % 2 == 0);
                    }
                }
            }
        }
    }
}

/// Idempotence of the no-op window: compressing a stream shorter than the
/// offset floor emits literals only — two bytes per input byte, in order.
/// Zero bytes are excluded: the window starts zero-filled, so a zero byte
/// can match stale slots above the floor even this early and be emitted as
/// a reference.
pub proof fn lemma_short_stream_all_literals(input: Seq<u8>)
    requires
        input.len() < MIN_OFFSET as nat,
        forall|i: int| 0 <= i < input.len() ==> #[trigger] input[i] != 0,
    ensures
        comp(zero_win(), 0, input, 0).0 == lit_stream(input),
{
    lemma_short_all_literals_from(zero_win(), 0, input, 0);
    assert(input.skip(0) =~= input);
}

} // verus!
