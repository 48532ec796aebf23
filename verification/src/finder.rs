//! The match finder: given the window and the lookahead of not-yet-consumed
//! input bytes at the current cursor, it proposes the single best
//! back-reference, or none.
//!
//! Candidate generation scans slot indices in `[MIN_OFFSET, WINDOW_SIZE)` in
//! descending order, recording every slot whose stored byte equals the byte
//! at the cursor, and stops once `MAX_CANDIDATES` candidates have been
//! recorded. Each candidate is extended while following lookahead bytes
//! match the window, up to `MAX_MATCH_LEN` and never past the available
//! input. The candidate with the greatest length wins; on ties the first
//! examined (highest slot index) wins. No match is reported unless some
//! candidate reaches length 2: a length-1 reference costs one wire byte more
//! than the literal it replaces.
//!
//! The search is a stateless function of the window and the lookahead: it
//! keeps no persistent index.

use vstd::prelude::*;

use crate::token::ref_bounds;
use crate::window::Window;
use crate::window::WINDOW_SIZE;

verus! {

/// Slots below this index are never proposed as offsets. The floor
/// guarantees that every reference's 16-bit wire value has a non-zero high
/// byte, so it can never collide with the literal escape code.
pub const MIN_OFFSET: usize = 8;

/// A match never grows past this length: it must fit the 5 length bits of
/// the wire token.
pub const MAX_MATCH_LEN: usize = 31;

/// Hard cap on recorded candidates, bounding worst-case search cost per
/// position.
pub const MAX_CANDIDATES: usize = 512;

/// A candidate back-reference: a slot index into the window and a length.
/// Ephemeral, produced and discarded within one step of the compression loop.
pub struct Match {
    pub offset: u16,
    pub len: u16,
}

impl Match {
    pub fn new(offset: u16, len: u16) -> (m: Match)
        ensures
            m.offset == offset,
            m.len == len,
    {
        Match { offset, len }
    }

    pub fn update(&mut self, offset: u16, len: u16)
        ensures
            final(self).offset == offset,
            final(self).len == len,
    {
        self.offset = offset;
        self.len = len;
    }

    pub fn reset(&mut self)
        ensures
            final(self).offset == 0,
            final(self).len == 1,
    {
        self.offset = 0;
        self.len = 1;
    }
}

impl Default for Match {
    /// The empty candidate: no slot, length 1, which no reference beats
    /// until a candidate of length 2 appears.
    fn default() -> (m: Match)
        ensures
            m.offset == 0,
            m.len == 1,
    {
        Match { offset: 0, len: 1 }
    }
}

/// How far a candidate at window slot `off` extends, starting from a known
/// matching prefix of length `l`: the length grows while the next lookahead
/// byte equals the next window byte (wrapped modulo the capacity), stopping
/// at the first mismatch, at the end of the available input, or at
/// `MAX_MATCH_LEN`.
pub open spec fn ext_len(w: Seq<u8>, input: Seq<u8>, cur: int, off: int, l: nat) -> nat
    decreases MAX_MATCH_LEN as int - l,
{
    if l >= MAX_MATCH_LEN as nat || cur + l >= input.len() || input[cur + l] != w[(off + l) % (
    WINDOW_SIZE as int)] {
        l
    } else {
        ext_len(w, input, cur, off, l + 1)
    }
}

/// How the running best candidate is updated: a newly examined candidate
/// replaces it only when strictly longer, so the first examined candidate
/// wins ties.
pub open spec fn upd_best(best: Option<(int, nat)>, i: int, l: nat) -> Option<(int, nat)> {
    match best {
        Option::None => Option::Some((i, l)),
        Option::Some((bo, bl)) => if l > bl {
            Option::Some((i, l))
        } else {
            best
        },
    }
}

/// The descending candidate scan, from slot `i` down to `MIN_OFFSET`, with
/// `budget` candidate recordings left and `best` the best candidate among
/// the slots already examined.
pub open spec fn scan(
    w: Seq<u8>,
    input: Seq<u8>,
    cur: int,
    i: int,
    budget: nat,
    best: Option<(int, nat)>,
) -> Option<(int, nat)>
    decreases i,
{
    if i < MIN_OFFSET as int || budget == 0 {
        best
    } else if w[i] == input[cur] {
        scan(
            w,
            input,
            cur,
            i - 1,
            (budget - 1) as nat,
            upd_best(best, i, ext_len(w, input, cur, i, 1)),
        )
    } else {
        scan(w, input, cur, i - 1, budget, best)
    }
}

/// The single best match at the cursor, or none when no candidate reaches
/// length 2.
pub open spec fn find_match_spec(w: Seq<u8>, input: Seq<u8>, cur: int) -> Option<(int, nat)> {
    match scan(w, input, cur, WINDOW_SIZE as int - 1, MAX_CANDIDATES as nat, Option::None) {
        Option::Some((o, l)) => if l >= 2 {
            Option::Some((o, l))
        } else {
            Option::None
        },
        Option::None => Option::None,
    }
}

/// What makes a candidate usable: its offset and length are within the wire
/// bounds except that the length may still be 1, it does not run past the
/// available input, and every byte it covers agrees between the lookahead
/// and the window.
pub open spec fn match_valid(w: Seq<u8>, input: Seq<u8>, cur: int, o: int, l: nat) -> bool {
    &&& MIN_OFFSET as int <= o < WINDOW_SIZE as int
    &&& 1 <= l <= MAX_MATCH_LEN as nat
    &&& cur + l <= input.len()
    &&& forall|j: int|
        cur <= j < cur + l ==> #[trigger] input[j] == w[(o + (j - cur)) % (WINDOW_SIZE as int)]
}

proof fn lemma_ext_len_valid(w: Seq<u8>, input: Seq<u8>, cur: int, off: int, l: nat)
    requires
        0 <= cur < input.len(),
        1 <= l <= MAX_MATCH_LEN as nat,
        cur + l <= input.len(),
        forall|j: int|
            cur <= j < cur + l ==> #[trigger] input[j] == w[(off + (j - cur)) % (WINDOW_SIZE as int)],
    ensures
        l <= ext_len(w, input, cur, off, l),
        ext_len(w, input, cur, off, l) <= MAX_MATCH_LEN as nat,
        cur + ext_len(w, input, cur, off, l) <= input.len(),
        forall|j: int|
            cur <= j < cur + ext_len(w, input, cur, off, l) ==> #[trigger] input[j] == w[(off + (j
                - cur)) % (WINDOW_SIZE as int)],
    decreases MAX_MATCH_LEN as int - l,
{
    if !(l >= MAX_MATCH_LEN as nat || cur + l >= input.len() || input[cur + l] != w[(off + l) % (
    WINDOW_SIZE as int)]) {
        assert(forall|j: int|
            cur <= j < cur + (l + 1) ==> #[trigger] input[j] == w[(off + (j - cur)) % (WINDOW_SIZE
                as int)]);
        lemma_ext_len_valid(w, input, cur, off, l + 1);
    }
}

proof fn lemma_scan_valid(
    w: Seq<u8>,
    input: Seq<u8>,
    cur: int,
    i: int,
    budget: nat,
    best: Option<(int, nat)>,
)
    requires
        0 <= cur < input.len(),
        w.len() == WINDOW_SIZE,
        i < WINDOW_SIZE as int,
        best matches Option::Some((o, l)) ==> match_valid(w, input, cur, o, l),
    ensures
        scan(w, input, cur, i, budget, best) matches Option::Some((o, l)) ==> match_valid(
            w,
            input,
            cur,
            o,
            l,
        ),
    decreases i,
{
    if i < MIN_OFFSET as int || budget == 0 {
    } else if w[i] == input[cur] {
        assert(i % (WINDOW_SIZE as int) == i);
        lemma_ext_len_valid(w, input, cur, i, 1);
        lemma_scan_valid(
            w,
            input,
            cur,
            i - 1,
            (budget - 1) as nat,
            upd_best(best, i, ext_len(w, input, cur, i, 1)),
        );
    } else {
        lemma_scan_valid(w, input, cur, i - 1, budget, best);
    }
}

/// Every match the finder reports is usable: its offset and length are
/// within the wire bounds, it does not run past the available input, and
/// every byte it covers agrees between the lookahead and the window.
pub proof fn lemma_find_match_valid(w: Seq<u8>, input: Seq<u8>, cur: int)
    requires
        0 <= cur < input.len(),
        w.len() == WINDOW_SIZE,
    ensures
        find_match_spec(w, input, cur) matches Option::Some((o, l)) ==> match_valid(
            w,
            input,
            cur,
            o,
            l,
        ) && ref_bounds(o, l as int),
{
    lemma_scan_valid(
        w,
        input,
        cur,
        WINDOW_SIZE as int - 1,
        MAX_CANDIDATES as nat,
        Option::None,
    );
}

/// The reported match, seen as the mathematical candidate it stands for.
pub open spec fn cand_view(r: Option<Match>) -> Option<(int, nat)> {
    match r {
        Option::None => Option::None,
        Option::Some(m) => Option::Some((m.offset as int, m.len as nat)),
    }
}

/// Runs the candidate scan at `cursor` and returns the single best match, or
/// none when no candidate reaches length 2.
pub fn find_match(win: &Window, input: &Vec<u8>, cursor: usize) -> (r: Option<Match>)
    requires
        win.wf(),
        win.contents().len() == WINDOW_SIZE,
        cursor < input@.len(),
    ensures
        cand_view(r) == find_match_spec(win.contents(), input@, cursor as int),
{
    let ghost w = win.contents();
    let ghost inp = input@;
    let cur_byte = input[cursor];
    let mut best: Option<Match> = Option::None;
    let mut i: usize = WINDOW_SIZE - 1;
    let mut budget: usize = MAX_CANDIDATES;
    while i >= MIN_OFFSET && budget > 0
        invariant
            MIN_OFFSET - 1 <= i < WINDOW_SIZE,
            budget <= MAX_CANDIDATES,
            win.wf(),
            win.contents() == w,
            w.len() == WINDOW_SIZE,
            inp == input@,
            cursor < inp.len(),
            cur_byte == inp[cursor as int],
            scan(w, inp, cursor as int, WINDOW_SIZE as int - 1, MAX_CANDIDATES as nat, Option::None)
                == scan(w, inp, cursor as int, i as int, budget as nat, cand_view(best)),
        decreases i,
    {
        let wb = win.get_byte(i);
        proof {
            assert((i as int) % (WINDOW_SIZE as int) == i as int);
        }
        if wb == cur_byte {
            let ghost prev = cand_view(best);
            let mut l: usize = 1;
            while l < MAX_MATCH_LEN && l < input.len() - cursor && input[cursor + l] == win.get_byte(
                i + l,
            )
                invariant
                    1 <= l <= MAX_MATCH_LEN,
                    win.wf(),
                    win.contents() == w,
                    w.len() == WINDOW_SIZE,
                    inp == input@,
                    cursor < inp.len(),
                    cursor + l <= inp.len(),
                    i < WINDOW_SIZE,
                    ext_len(w, inp, cursor as int, i as int, 1) == ext_len(
                        w,
                        inp,
                        cursor as int,
                        i as int,
                        l as nat,
                    ),
                decreases MAX_MATCH_LEN - l,
            {
                l += 1;
            }
            proof {
                assert(ext_len(w, inp, cursor as int, i as int, l as nat) == l as nat);
            }
            let l16: u16 = l as u16;
            let better: bool = match &best {
                Option::None => true,
                Option::Some(b) => l16 > b.len,
            };
            if better {
                best = Option::Some(Match::new(i as u16, l16));
            }
            proof {
                assert(cand_view(best) == upd_best(prev, i as int, l as nat));
            }
            budget -= 1;
        }
        i -= 1;
    }
    match best {
        Option::Some(m) => if m.len >= 2 {
            Option::Some(m)
        } else {
            Option::None
        },
        Option::None => Option::None,
    }
}

} // verus!
