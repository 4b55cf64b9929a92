//! The filter on application output that keeps the real terminal in the classic
//! byte encoding.

use vstd::prelude::*;

verus! {

pub const ESC: u8 = 0x1b;

/// `[`, which after an escape starts a control sequence.
pub const BRACKET: u8 = 0x5b;

/// Whether `b` is one of `>`, `=`, `?`, `<`, which start a private sequence.
pub open spec fn is_marker(b: u8) -> bool {
    b == 0x3e || b == 0x3d || b == 0x3f || b == 0x3c
}

/// Whether `b` is a parameter or intermediate byte of a control sequence.
pub open spec fn is_param(b: u8) -> bool {
    0x20 <= b <= 0x3f
}

/// Whether a private sequence with this marker and final byte negotiates the
/// keyboard encoding: `u` with any marker (kitty keyboard protocol), `m` with
/// `>` (xterm key-modifier options).
pub open spec fn negotiates(marker: u8, last: u8) -> bool {
    last == 0x75 || (marker == 0x3e && last == 0x6d)
}

/// Whether `s` is one whole negotiation sequence.
pub open spec fn is_negotiation(s: Seq<u8>) -> bool {
    &&& s.len() >= 4
    &&& s[0] == ESC
    &&& s[1] == BRACKET
    &&& is_marker(s[2])
    &&& forall|k: int| 3 <= k < s.len() - 1 ==> is_param(#[trigger] s[k])
    &&& negotiates(s[2], s.last())
}

/// Whether `s` is unfinished: more bytes could make a negotiation sequence of it.
pub open spec fn is_open(s: Seq<u8>) -> bool {
    &&& s.len() > 0
    &&& s[0] == ESC
    &&& s.len() > 1 ==> s[1] == BRACKET
    &&& s.len() > 2 ==> is_marker(s[2])
    &&& forall|k: int| 3 <= k < s.len() ==> is_param(#[trigger] s[k])
}

/// Whether a negotiation sequence stands anywhere in `bytes`.
pub open spec fn has_negotiation(bytes: Seq<u8>) -> bool {
    exists|i: int, j: int|
        0 <= i <= j <= bytes.len() && is_negotiation(#[trigger] bytes.subrange(i, j))
}

/// Where the last escape of `text` stands; -1 if there is none.
pub open spec fn last_esc(text: Seq<u8>) -> int
    decreases text.len(),
{
    if text.len() == 0 {
        -1
    } else if text.last() == ESC {
        text.len() - 1
    } else {
        last_esc(text.drop_last())
    }
}

/// `text` with one more byte behind it; if it then ends in a negotiation sequence,
/// without that sequence.  (Such a sequence has no escape but its first byte.)
pub open spec fn extended(text: Seq<u8>, b: u8) -> Seq<u8> {
    let all = text.push(b);
    let i = last_esc(all);
    if i >= 0 && is_negotiation(all.skip(i)) {
        all.take(i)
    } else {
        all
    }
}

/// `text` with `bytes` behind it, one after the other, each negotiation sequence
/// removed as soon as it is complete.  What stood before a removed sequence goes on
/// with what comes behind it.
pub open spec fn fed(text: Seq<u8>, bytes: Seq<u8>) -> Seq<u8>
    decreases bytes.len(),
{
    if bytes.len() == 0 {
        text
    } else {
        extended(fed(text, bytes.drop_last()), bytes.last())
    }
}

/// How much of `text` no later byte can change: all but the unfinished sequences at
/// its end.
pub open spec fn settled(text: Seq<u8>) -> nat
    decreases text.len(),
{
    let i = last_esc(text);
    if 0 <= i < text.len() && is_open(text.skip(i)) {
        settled(text.take(i))
    } else {
        text.len()
    }
}

/// `bytes` without its negotiation sequences, in two parts: what is shown, and the
/// unfinished sequences at its end, which are held back.
pub open spec fn strip(bytes: Seq<u8>) -> (Seq<u8>, Seq<u8>) {
    let text = fed(Seq::empty(), bytes);
    (text.take(settled(text) as int), text.skip(settled(text) as int))
}

/// Strips terminal keyboard-protocol negotiation from application output so the
/// real terminal stays in the classic byte encoding.
///
/// A session manager that does not emulate a terminal cannot proxy the kitty
/// keyboard protocol or xterm's modifyOtherKeys across attach and detach: if a
/// program enables them, the sequences reach the real terminal, and after detach
/// the outer shell is left receiving `CSI ... u` gibberish for Ctrl keys.  By
/// dropping the negotiation sequences here, Ctrl keys keep arriving as plain
/// control bytes (so detach detection is reliable) and nothing leaks out.
///
/// Only these forms are removed, told by a private intro byte and the final
/// byte; ordinary SGR, cursor and DEC-mode sequences are untouched:
/// - `CSI > ... u`, `CSI = ... u`, `CSI ? ... u`, `CSI < ... u` (kitty)
/// - `CSI > ... m` (xterm key-modifier options)
///
/// An escape breaks an unfinished sequence off and starts a new one.  If the new one
/// is removed, the broken one is taken up again, so that what stood around a removed
/// sequence does not make another one on the terminal.
///
/// The state persists across calls, so a sequence split across reads is handled.
/// The filter's view is what it holds back.
#[derive(Debug)]
pub struct OutputFilter {
    held: Vec<u8>,
    /// Where in `held` the unfinished sequences start.
    starts: Vec<usize>,
}

impl View for OutputFilter {
    type V = Seq<u8>;

    closed spec fn view(&self) -> Seq<u8> {
        self.held@
    }
}

/// Whether `held` is made of unfinished sequences that start at `starts`.
spec fn stacked(held: Seq<u8>, starts: Seq<usize>) -> bool
    decreases starts.len(),
{
    if starts.len() == 0 {
        held.len() == 0
    } else {
        let s = starts.last() as int;
        &&& s < held.len()
        &&& is_open(held.skip(s))
        &&& stacked(held.take(s), starts.drop_last())
    }
}

proof fn lemma_last_esc(text: Seq<u8>)
    ensures
        -1 <= last_esc(text) < text.len(),
        last_esc(text) >= 0 ==> text[last_esc(text)] == ESC,
        forall|k: int| last_esc(text) < k < text.len() ==> #[trigger] text[k] != ESC,
    decreases text.len(),
{
    if text.len() > 0 && text.last() != ESC {
        let init = text.drop_last();
        lemma_last_esc(init);
        assert forall|k: int| last_esc(text) < k < text.len() implies #[trigger] text[k] != ESC by {
            if k < init.len() {
                assert(text[k] == init[k]);
            }
        }
    }
}

/// The last escape is told by the bytes behind it.
proof fn lemma_last_esc_is(text: Seq<u8>, i: int)
    requires
        -1 <= i < text.len(),
        i >= 0 ==> text[i] == ESC,
        forall|k: int| i < k < text.len() ==> #[trigger] text[k] != ESC,
    ensures
        last_esc(text) == i,
{
    lemma_last_esc(text);
    if last_esc(text) < i {
        assert(text[i] != ESC);
    }
}

/// A negotiation sequence, like an unfinished one, has an escape only at its start.
proof fn lemma_one_escape(s: Seq<u8>, k: int)
    requires
        is_negotiation(s) || is_open(s),
        0 < k < s.len(),
    ensures
        s[k] != ESC,
{
    if k >= 3 && k < s.len() - 1 {
        assert(is_param(s[k]));
    }
    if k == s.len() - 1 && k >= 3 && is_open(s) {
        assert(is_param(s[k]));
    }
}

/// The start of a negotiation sequence, or of an unfinished one, is unfinished.
proof fn lemma_start_is_open(s: Seq<u8>, n: int)
    requires
        (is_negotiation(s) && 0 < n < s.len()) || (is_open(s) && 0 < n <= s.len()),
    ensures
        is_open(s.take(n)),
{
    let t = s.take(n);
    assert forall|k: int| 3 <= k < t.len() implies is_param(#[trigger] t[k]) by {
        assert(is_param(s[k]));
    }
}

proof fn lemma_settled(text: Seq<u8>)
    ensures
        settled(text) <= text.len(),
        settled(text.take(settled(text) as int)) == settled(text),
    decreases text.len(),
{
    lemma_last_esc(text);
    let i = last_esc(text);
    if i >= 0 && is_open(text.skip(i)) {
        lemma_settled(text.take(i));
        let k = settled(text) as int;
        assert(text.take(i).take(k) == text.take(k));
    } else {
        assert(text.take(text.len() as int) == text);
    }
}

proof fn lemma_fed_join(text: Seq<u8>, first: Seq<u8>, second: Seq<u8>)
    ensures
        fed(text, first + second) == fed(fed(text, first), second),
    decreases second.len(),
{
    let all = first + second;
    if second.len() == 0 {
        assert(all == first);
    } else {
        assert(all.drop_last() == first + second.drop_last());
        lemma_fed_join(text, first, second.drop_last());
    }
}

/// A text that ends in no unfinished sequence has no part in a sequence that ends
/// behind it.
proof fn lemma_no_part(early: Seq<u8>, t: Seq<u8>, i: int)
    requires
        settled(early) == early.len(),
        0 <= i < early.len(),
    ensures
        !is_open((early + t).skip(i)),
        t.len() > 0 ==> !is_negotiation((early + t).skip(i)),
{
    let s = (early + t).skip(i);
    let n = early.len() - i;
    if is_open(s) || (t.len() > 0 && is_negotiation(s)) {
        lemma_start_is_open(s, n);
        assert(s.take(n) == early.skip(i));
        assert(early[i] == s[0]);
        assert forall|k: int| i < k < early.len() implies #[trigger] early[k] != ESC by {
            lemma_one_escape(s, k - i);
            assert(s[k - i] == early[k]);
        }
        lemma_last_esc_is(early, i);
        lemma_settled(early.take(i));
    }
}

proof fn lemma_last_esc_behind(early: Seq<u8>, t: Seq<u8>)
    ensures
        last_esc(early + t) == if last_esc(t) >= 0 {
            early.len() + last_esc(t)
        } else {
            last_esc(early)
        },
{
    let all = early + t;
    let i = if last_esc(t) >= 0 {
        early.len() + last_esc(t)
    } else {
        last_esc(early)
    };
    lemma_last_esc(early);
    lemma_last_esc(t);
    assert forall|k: int| i < k < all.len() implies #[trigger] all[k] != ESC by {
        if k < early.len() {
            assert(all[k] == early[k]);
        } else {
            assert(all[k] == t[k - early.len()]);
        }
    }
    lemma_last_esc_is(all, i);
}

proof fn lemma_extended_behind(early: Seq<u8>, t: Seq<u8>, b: u8)
    requires
        settled(early) == early.len(),
    ensures
        extended(early + t, b) == early + extended(t, b),
{
    let more = t.push(b);
    let all = early + more;
    assert((early + t).push(b) == all);
    lemma_last_esc_behind(early, more);
    lemma_last_esc(more);
    lemma_last_esc(early);
    let i = last_esc(all);
    if last_esc(more) >= 0 {
        let j = last_esc(more);
        assert(all.skip(i) == more.skip(j));
        assert(all.take(i) == early + more.take(j));
    } else if i >= 0 && is_negotiation(all.skip(i)) {
        lemma_no_part(early, more, i);
    }
}

proof fn lemma_fed_behind(early: Seq<u8>, t: Seq<u8>, bytes: Seq<u8>)
    requires
        settled(early) == early.len(),
    ensures
        fed(early + t, bytes) == early + fed(t, bytes),
    decreases bytes.len(),
{
    if bytes.len() > 0 {
        lemma_fed_behind(early, t, bytes.drop_last());
        lemma_extended_behind(early, fed(t, bytes.drop_last()), bytes.last());
    }
}

proof fn lemma_settled_behind(early: Seq<u8>, t: Seq<u8>)
    requires
        settled(early) == early.len(),
    ensures
        settled(early + t) == early.len() + settled(t),
    decreases t.len(),
{
    let all = early + t;
    lemma_last_esc_behind(early, t);
    lemma_last_esc(t);
    lemma_last_esc(early);
    let i = last_esc(all);
    if last_esc(t) >= 0 {
        let j = last_esc(t);
        assert(all.skip(i) == t.skip(j));
        assert(all.take(i) == early + t.take(j));
        if is_open(t.skip(j)) {
            lemma_settled_behind(early, t.take(j));
        }
    } else if i >= 0 && is_open(all.skip(i)) {
        lemma_no_part(early, t, i);
    }
}

/// A part of a text has a negotiation sequence only if the text has one.
proof fn lemma_negotiation_in_part(text: Seq<u8>, from: int, to: int)
    requires
        0 <= from <= to <= text.len(),
        has_negotiation(text.subrange(from, to)),
    ensures
        has_negotiation(text),
{
    let part = text.subrange(from, to);
    let (i, j) = choose|i: int, j: int|
        0 <= i <= j <= part.len() && is_negotiation(#[trigger] part.subrange(i, j));
    assert(text.subrange(i + from, j + from) == part.subrange(i, j));
}

/// A negotiation sequence at the end of a text starts at its last escape.
proof fn lemma_negotiation_at_end(text: Seq<u8>, i: int)
    requires
        0 <= i <= text.len(),
        is_negotiation(text.skip(i)),
    ensures
        last_esc(text) == i,
{
    let s = text.skip(i);
    assert(text[i] == s[0]);
    assert forall|k: int| i < k < text.len() implies #[trigger] text[k] != ESC by {
        lemma_one_escape(s, k - i);
        assert(s[k - i] == text[k]);
    }
    lemma_last_esc_is(text, i);
}

/// One more byte brings no negotiation sequence into a text.
proof fn lemma_extended_is_clean(text: Seq<u8>, b: u8)
    requires
        !has_negotiation(text),
    ensures
        !has_negotiation(extended(text, b)),
{
    let all = text.push(b);
    lemma_last_esc(all);
    let i = last_esc(all);
    if i >= 0 && is_negotiation(all.skip(i)) {
        assert(all.take(i) == text.subrange(0, i));
        if has_negotiation(all.take(i)) {
            lemma_negotiation_in_part(text, 0, i);
        }
    } else if has_negotiation(all) {
        let (x, y) = choose|x: int, y: int|
            0 <= x <= y <= all.len() && is_negotiation(#[trigger] all.subrange(x, y));
        if y <= text.len() {
            assert(text.subrange(x, y) == all.subrange(x, y));
        } else {
            assert(all.skip(x) == all.subrange(x, y));
            lemma_negotiation_at_end(all, x);
        }
    }
}

proof fn lemma_fed_is_clean(text: Seq<u8>, bytes: Seq<u8>)
    requires
        !has_negotiation(text),
    ensures
        !has_negotiation(fed(text, bytes)),
    decreases bytes.len(),
{
    if bytes.len() > 0 {
        lemma_fed_is_clean(text, bytes.drop_last());
        lemma_extended_is_clean(fed(text, bytes.drop_last()), bytes.last());
    }
}

proof fn lemma_empty_is_clean()
    ensures
        !has_negotiation(Seq::empty()),
{
}

/// Bytes without a negotiation sequence stay as they are.
proof fn lemma_clean_is_kept(bytes: Seq<u8>)
    requires
        !has_negotiation(bytes),
    ensures
        fed(Seq::empty(), bytes) == bytes,
    decreases bytes.len(),
{
    if bytes.len() > 0 {
        let init = bytes.drop_last();
        assert(init == bytes.subrange(0, bytes.len() - 1));
        if has_negotiation(init) {
            lemma_negotiation_in_part(bytes, 0, bytes.len() - 1);
        }
        lemma_clean_is_kept(init);
        assert(init.push(bytes.last()) == bytes);
        lemma_last_esc(bytes);
        let i = last_esc(bytes);
        if i >= 0 {
            assert(bytes.subrange(i, bytes.len() as int) == bytes.skip(i));
        }
    } else {
        assert(bytes == Seq::<u8>::empty());
    }
}

/// What unfinished sequences are: none of them is settled, and there is no
/// negotiation sequence in them.
proof fn lemma_stacked(held: Seq<u8>, starts: Seq<usize>)
    requires
        stacked(held, starts),
    ensures
        settled(held) == 0,
        last_esc(held) == if starts.len() == 0 {
            -1
        } else {
            starts.last() as int
        },
        !has_negotiation(held),
    decreases starts.len(),
{
    if starts.len() > 0 {
        let s = starts.last() as int;
        let below = held.take(s);
        let top = held.skip(s);
        lemma_stacked(below, starts.drop_last());
        assert(held[s] == top[0]);
        assert forall|k: int| s < k < held.len() implies #[trigger] held[k] != ESC by {
            lemma_one_escape(top, k - s);
            assert(top[k - s] == held[k]);
        }
        lemma_last_esc_is(held, s);
        assert forall|x: int, y: int| 0 <= x <= y <= held.len() implies !is_negotiation(
            #[trigger] held.subrange(x, y),
        ) by {
            let n = held.subrange(x, y);
            if is_negotiation(n) {
                assert(n[0] == held[x]);
                if x == s {
                    assert(top[y - 1 - s] == n.last());
                    assert(is_param(top[y - 1 - s]));
                } else if y <= s {
                    assert(below.subrange(x, y) == n);
                    assert(has_negotiation(below));
                } else if x < s {
                    assert(n[s - x] == held[s]);
                    lemma_one_escape(n, s - x);
                }
            }
        }
    } else {
        lemma_empty_is_clean();
        assert(held == Seq::<u8>::empty());
    }
}

/// What one more byte makes of the bytes held back: what is shown, and what is then
/// held back.
proof fn lemma_next(held: Seq<u8>, starts: Seq<usize>, b: u8)
    requires
        stacked(held, starts),
        held.len() <= usize::MAX,
    ensures
        strip(held) == (Seq::<u8>::empty(), held),
        b == ESC ==> {
            &&& stacked(held.push(b), starts.push(held.len() as usize))
            &&& strip(held + seq![b]) == (Seq::<u8>::empty(), held.push(b))
        },
        b != ESC ==> ({
            let s = last_esc(held);
            let top = held.push(b).skip(s);
            if s < 0 {
                held.len() == 0 && strip(held + seq![b]) == (seq![b], Seq::<u8>::empty())
            } else if is_open(top) {
                &&& stacked(held.push(b), starts)
                &&& strip(held + seq![b]) == (Seq::<u8>::empty(), held.push(b))
            } else if is_negotiation(top) {
                &&& stacked(held.take(s), starts.drop_last())
                &&& strip(held + seq![b]) == (Seq::<u8>::empty(), held.take(s))
            } else {
                strip(held + seq![b]) == (held.push(b), Seq::<u8>::empty())
            }
        }),
{
    let all = held.push(b);
    let n = held.len() as int;
    lemma_stacked(held, starts);
    lemma_clean_is_kept(held);
    assert(held.take(0) == Seq::<u8>::empty());
    assert(held.skip(0) == held);
    lemma_fed_join(Seq::empty(), held, seq![b]);
    assert(seq![b].drop_last() == Seq::<u8>::empty());
    assert(fed(held, seq![b].drop_last()) == held);
    assert(fed(held, seq![b]) == extended(held, b));
    assert(all.take(n) == held);
    assert(all.take(0) == Seq::<u8>::empty());
    assert(all.skip(0) == all);
    assert(all.take(all.len() as int) == all);
    assert(all.skip(all.len() as int) == Seq::<u8>::empty());
    lemma_last_esc(held);
    if b == ESC {
        let more = starts.push(n as usize);
        assert(more.drop_last() == starts);
        assert(is_open(all.skip(n)));
        assert(stacked(all, more));
        lemma_stacked(all, more);
    } else {
        assert(all.drop_last() == held);
        let s = last_esc(held);
        assert(last_esc(all) == s);
        if s >= 0 {
            assert(all.take(s) == held.take(s));
            if is_open(all.skip(s)) {
                assert(stacked(all, starts));
                lemma_stacked(all, starts);
                let top = all.skip(s);
                if is_negotiation(top) {
                    assert(is_param(top[top.len() - 1]));
                }
            } else if is_negotiation(all.skip(s)) {
                lemma_stacked(held.take(s), starts.drop_last());
                assert(held.take(s).take(0) == Seq::<u8>::empty());
                assert(held.take(s).skip(0) == held.take(s));
            }
        } else {
            assert(all == seq![b]);
        }
    }
}

impl OutputFilter {
    #[verifier::type_invariant]
    closed spec fn inv(self) -> bool {
        stacked(self.held@, self.starts@)
    }

    /// A filter that holds nothing back.
    pub fn new() -> (f: OutputFilter)
        ensures
            f@ == Seq::<u8>::empty(),
    {
        OutputFilter { held: Vec::new(), starts: Vec::new() }
    }

    /// The part of the output, what was held back before it included, that can be
    /// passed on.
    pub fn filter(&mut self, input: &[u8]) -> (out: Vec<u8>)
        ensures
            (out@, final(self)@) == strip(old(self)@ + input@),
    {
        proof {
            use_type_invariant(&*self);
        }
        let ghost before = self@;
        let mut fresh = OutputFilter::new();
        core::mem::swap(&mut fresh, self);
        let OutputFilter { mut held, mut starts } = fresh;
        let mut out: Vec<u8> = Vec::new();
        assert(before.len() == held.len());
        proof {
            lemma_next(held@, starts@, 0);
            assert(before + input@.take(0) == before);
        }
        let mut i: usize = 0;
        while i < input.len()
            invariant
                i <= input@.len(),
                stacked(held@, starts@),
                (out@, held@) == strip(before + input@.take(i as int)),
            decreases input@.len() - i,
        {
            let b: u8 = input[i];
            let ghost out0 = out@;
            let ghost held0 = held@;
            let len: usize = held.len();
            proof {
                lemma_next(held@, starts@, b);
                lemma_stacked(held@, starts@);
            }
            if b == ESC {
                starts.push(len);
                held.push(b);
            } else if starts.len() == 0 {
                out.push(b);
            } else {
                let start: usize = starts[starts.len() - 1];
                let n: usize = len - start;
                let ghost top = held0.push(b).skip(start as int);
                let ghost sofar = held0.skip(start as int);
                let open: bool = if n == 1 {
                    b == BRACKET
                } else if n == 2 {
                    b == 0x3e || b == 0x3d || b == 0x3f || b == 0x3c
                } else {
                    0x20 <= b && b <= 0x3f
                };
                let drop: bool = n >= 3 && (b == 0x75 || (held[start + 2] == 0x3e && b == 0x6d));
                proof {
                    assert(top == sofar.push(b));
                    assert forall|k: int| 3 <= k < n implies is_param(#[trigger] top[k]) by {
                        assert(top[k] == sofar[k]);
                    }
                    assert(top[n as int] == b);
                    if n >= 3 {
                        assert(sofar[2] == held0[start + 2]);
                    }
                    assert(open == is_open(top));
                    assert(!open ==> drop == is_negotiation(top));
                }
                if open {
                    held.push(b);
                } else if drop {
                    held.truncate(start);
                    let _ = starts.pop();
                    assert(held@ == held0.take(start as int));
                } else {
                    out.append(&mut held);
                    out.push(b);
                    starts.clear();
                }
            }
            proof {
                let upto = before + input@.take(i as int);
                assert(before + input@.take(i + 1) == upto + seq![b]);
                law_cuts_do_not_matter(upto, seq![b]);
                assert((out@, held@) == (out0 + strip(held0 + seq![b]).0, strip(
                    held0 + seq![b],
                ).1));
            }
            i += 1;
        }
        *self = OutputFilter { held, starts };
        assert(input@.take(input@.len() as int) == input@);
        out
    }
}

// ---- laws -------------------------------------------------------------------

/// It does not matter how the output is cut into reads: filtering a part and then
/// the rest, with what was held back before it, shows what filtering the whole
/// shows, and holds the same bytes back.
pub proof fn law_cuts_do_not_matter(first: Seq<u8>, second: Seq<u8>)
    ensures
        ({
            let (early, left) = strip(first);
            let (late, rest) = strip(left + second);
            strip(first + second) == (early + late, rest)
        }),
{
    let text = fed(Seq::empty(), first);
    let (early, left) = strip(first);
    lemma_settled(text);
    assert(early + left == text);
    lemma_empty_is_clean();
    lemma_fed_is_clean(Seq::empty(), first);
    assert(left == text.subrange(settled(text) as int, text.len() as int));
    if has_negotiation(left) {
        lemma_negotiation_in_part(text, settled(text) as int, text.len() as int);
    }
    lemma_clean_is_kept(left);
    lemma_fed_join(Seq::empty(), first, second);
    lemma_fed_join(Seq::empty(), left, second);
    lemma_fed_behind(early, left, second);
    let later = fed(left, second);
    lemma_settled_behind(early, later);
    lemma_settled(later);
    let k = settled(later) as int;
    assert((early + later).take(early.len() + k) == early + later.take(k));
    assert((early + later).skip(early.len() + k) == later.skip(k));
}

/// Output without escapes passes unchanged, and nothing is held back.
pub proof fn law_plain_output_passes(bytes: Seq<u8>)
    requires
        forall|k: int| 0 <= k < bytes.len() ==> #[trigger] bytes[k] != ESC,
    ensures
        strip(bytes) == (bytes, Seq::<u8>::empty()),
{
    assert forall|i: int, j: int| 0 <= i <= j <= bytes.len() implies !is_negotiation(
        #[trigger] bytes.subrange(i, j),
    ) by {
        let s = bytes.subrange(i, j);
        if is_negotiation(s) {
            assert(s[0] == bytes[i]);
        }
    }
    lemma_clean_is_kept(bytes);
    lemma_last_esc_is(bytes, -1);
    assert(bytes.take(bytes.len() as int) == bytes);
    assert(bytes.skip(bytes.len() as int) == Seq::<u8>::empty());
}

/// A negotiation sequence is removed wherever it stands: the output is filtered as if
/// the sequence had not been there.
pub proof fn law_negotiation_is_removed(before: Seq<u8>, s: Seq<u8>, after: Seq<u8>)
    requires
        is_negotiation(s),
    ensures
        strip(before + s + after) == strip(before + after),
{
    let text = fed(Seq::empty(), before);
    lemma_fed_join(Seq::empty(), before + s, after);
    lemma_fed_join(Seq::empty(), before, s);
    lemma_fed_join(Seq::empty(), before, after);
    let init = s.drop_last();
    lemma_unfinished_is_kept(text, s, s.len() - 1);
    assert(s.take(s.len() - 1) == init);
    let all = (text + init).push(s.last());
    assert(all == text + s);
    assert(all.skip(text.len() as int) == s);
    lemma_negotiation_at_end(all, text.len() as int);
    assert(all.take(text.len() as int) == text);
}

/// Nothing is removed while a negotiation sequence is unfinished.
proof fn lemma_unfinished_is_kept(text: Seq<u8>, s: Seq<u8>, n: int)
    requires
        is_negotiation(s),
        0 <= n < s.len(),
    ensures
        fed(text, s.take(n)) == text + s.take(n),
    decreases n,
{
    let part = s.take(n);
    if n > 0 {
        lemma_unfinished_is_kept(text, s, n - 1);
        assert(part.drop_last() == s.take(n - 1));
        let all = text + part;
        assert((text + s.take(n - 1)).push(part.last()) == all);
        lemma_start_is_open(s, n);
        assert(all[text.len() as int] == ESC);
        assert forall|k: int| text.len() < k < all.len() implies #[trigger] all[k] != ESC by {
            lemma_one_escape(part, k - text.len());
        }
        lemma_last_esc_is(all, text.len() as int);
        assert(all.skip(text.len() as int) == part);
        if is_negotiation(part) {
            assert(is_param(part[part.len() - 1]));
        }
    } else {
        assert(text + part == text);
    }
}

/// Nothing else is removed: output in which no negotiation sequence stands is
/// shown, but for what is held back at its end, byte for byte.
pub proof fn law_nothing_else_is_removed(bytes: Seq<u8>)
    requires
        !has_negotiation(bytes),
    ensures
        strip(bytes).0 + strip(bytes).1 == bytes,
{
    lemma_clean_is_kept(bytes);
    lemma_settled(bytes);
}

/// Nothing leaks out: in what is shown no negotiation sequence stands, whatever came.
pub proof fn law_nothing_leaks(bytes: Seq<u8>)
    ensures
        !has_negotiation(strip(bytes).0),
{
    let text = fed(Seq::empty(), bytes);
    lemma_empty_is_clean();
    lemma_fed_is_clean(Seq::empty(), bytes);
    lemma_settled(text);
    assert(strip(bytes).0 == text.subrange(0, settled(text) as int));
    if has_negotiation(strip(bytes).0) {
        lemma_negotiation_in_part(text, 0, settled(text) as int);
    }
}

/// Whether `part` is `whole` without some of its bytes.
pub open spec fn is_subsequence(part: Seq<u8>, whole: Seq<u8>) -> bool
    decreases whole.len(),
{
    if part.len() == 0 {
        true
    } else if whole.len() == 0 {
        false
    } else {
        ||| is_subsequence(part, whole.drop_last())
        ||| part.last() == whole.last() && is_subsequence(part.drop_last(), whole.drop_last())
    }
}

proof fn lemma_start_of_subsequence(part: Seq<u8>, whole: Seq<u8>, n: int)
    requires
        is_subsequence(part, whole),
        0 <= n <= part.len(),
    ensures
        is_subsequence(part.take(n), whole),
    decreases whole.len(),
{
    if n == part.len() {
        assert(part.take(n) == part);
    } else if n > 0 {
        let init = whole.drop_last();
        if is_subsequence(part, init) {
            lemma_start_of_subsequence(part, init, n);
        } else {
            lemma_start_of_subsequence(part.drop_last(), init, n);
            assert(part.drop_last().take(n) == part.take(n));
        }
    }
}

/// Nothing is added and nothing changes places: what is shown and then what is held
/// back are together what came without some of its bytes.
pub proof fn law_nothing_is_added(bytes: Seq<u8>)
    ensures
        is_subsequence(strip(bytes).0 + strip(bytes).1, bytes),
{
    let text = fed(Seq::empty(), bytes);
    lemma_settled(text);
    assert(strip(bytes).0 + strip(bytes).1 == text);
    lemma_fed_is_a_subsequence(bytes);
}

proof fn lemma_fed_is_a_subsequence(bytes: Seq<u8>)
    ensures
        is_subsequence(fed(Seq::empty(), bytes), bytes),
    decreases bytes.len(),
{
    if bytes.len() > 0 {
        let init = bytes.drop_last();
        let text = fed(Seq::empty(), init);
        lemma_fed_is_a_subsequence(init);
        let all = text.push(bytes.last());
        assert(all.drop_last() == text);
        assert(is_subsequence(all, bytes));
        lemma_last_esc(all);
        let i = last_esc(all);
        if i >= 0 {
            lemma_start_of_subsequence(all, bytes, i);
        }
    }
}

/// Which sequences are removed, byte by byte: `ESC [`, one of `> = ? <`, any parameter
/// bytes (0x20 to 0x3f), and then `u`; and with `>` also those that end in `m`.  The
/// output is filtered as if the sequence had not been there.
pub proof fn law_keyboard_sequences_are_removed(
    before: Seq<u8>,
    marker: u8,
    params: Seq<u8>,
    last: u8,
    after: Seq<u8>,
)
    requires
        marker == 0x3e || marker == 0x3d || marker == 0x3f || marker == 0x3c,
        forall|k: int| 0 <= k < params.len() ==> 0x20 <= #[trigger] params[k] <= 0x3f,
        last == 0x75 || (last == 0x6d && marker == 0x3e),
    ensures
        strip(before + (seq![0x1b, 0x5b, marker] + params + seq![last]) + after) == strip(
            before + after,
        ),
{
    let s = seq![0x1b, 0x5b, marker] + params + seq![last];
    assert forall|k: int| 3 <= k < s.len() - 1 implies is_param(#[trigger] s[k]) by {
        assert(s[k] == params[k - 3]);
    }
    law_negotiation_is_removed(before, s, after);
}

/// Whether from `i` to `j` there stands a sequence that is to be removed.
pub open spec fn keyboard_sequence_at(bytes: Seq<u8>, i: int, j: int) -> bool {
    &&& 0 <= i && i + 3 <= j < bytes.len()
    &&& bytes[i] == 0x1b && bytes[i + 1] == 0x5b
    &&& bytes[i + 2] == 0x3e || bytes[i + 2] == 0x3d || bytes[i + 2] == 0x3f || bytes[i + 2] == 0x3c
    &&& forall|k: int| i + 3 <= k < j ==> 0x20 <= #[trigger] bytes[k] <= 0x3f
    &&& bytes[j] == 0x75 || (bytes[j] == 0x6d && bytes[i + 2] == 0x3e)
}

proof fn lemma_negotiation_byte_by_byte(bytes: Seq<u8>)
    ensures
        has_negotiation(bytes) <==> exists|i: int, j: int|
            #[trigger] keyboard_sequence_at(bytes, i, j),
{
    if has_negotiation(bytes) {
        let (i, j) = choose|i: int, j: int|
            0 <= i <= j <= bytes.len() && is_negotiation(#[trigger] bytes.subrange(i, j));
        let s = bytes.subrange(i, j);
        assert(s[0] == bytes[i] && s[1] == bytes[i + 1] && s[2] == bytes[i + 2]);
        assert(s.last() == bytes[j - 1]);
        assert forall|k: int| i + 3 <= k < j - 1 implies 0x20 <= #[trigger] bytes[k] <= 0x3f by {
            assert(is_param(s[k - i]));
        }
        assert(keyboard_sequence_at(bytes, i, j - 1));
    }
    if exists|i: int, j: int| #[trigger] keyboard_sequence_at(bytes, i, j) {
        let (i, j) = choose|i: int, j: int| #[trigger] keyboard_sequence_at(bytes, i, j);
        let s = bytes.subrange(i, j + 1);
        assert(s[0] == bytes[i] && s[1] == bytes[i + 1] && s[2] == bytes[i + 2]);
        assert(s.last() == bytes[j]);
        assert forall|k: int| 3 <= k < s.len() - 1 implies is_param(#[trigger] s[k]) by {
            assert(s[k] == bytes[i + k]);
        }
        assert(is_negotiation(s));
    }
}

/// Byte by byte: no such sequence is ever shown, and output in which none stands is
/// not touched.
pub proof fn law_only_keyboard_sequences_are_removed(bytes: Seq<u8>)
    ensures
        forall|i: int, j: int| !#[trigger] keyboard_sequence_at(strip(bytes).0, i, j),
        (forall|i: int, j: int| !#[trigger] keyboard_sequence_at(bytes, i, j)) ==> strip(bytes).0
            + strip(bytes).1 == bytes,
{
    law_nothing_leaks(bytes);
    lemma_negotiation_byte_by_byte(strip(bytes).0);
    lemma_negotiation_byte_by_byte(bytes);
    if !has_negotiation(bytes) {
        law_nothing_else_is_removed(bytes);
    }
}

proof fn lemma_unsettled(text: Seq<u8>, k: int)
    requires
        settled(text) <= k < text.len(),
    ensures
        ({
            let from = settled(text) as int;
            ||| text[k] == 0x1b
            ||| k >= from + 1 && text[k - 1] == 0x1b && text[k] == 0x5b
            ||| k >= from + 2 && 0x20 <= text[k] <= 0x3f && text[k - 1] != 0x1b
        }),
        k >= settled(text) + 2 && text[k] != 0x1b && text[k - 1] == 0x5b && text[k - 2] == 0x1b
            ==> is_marker(text[k]),
        settled(text) < text.len() ==> text[settled(text) as int] == 0x1b,
    decreases text.len(),
{
    lemma_last_esc(text);
    let i = last_esc(text);
    let below = text.take(i);
    let top = text.skip(i);
    lemma_settled(below);
    if k < i {
        lemma_unsettled(below, k);
    } else {
        assert(text[k] == top[k - i]);
        if k > i {
            lemma_one_escape(top, k - i);
            assert(text[k - 1] == top[k - i - 1]);
        }
        if k > i + 1 {
            assert(text[k - 2] == top[k - i - 2]);
        }
        if k >= i + 2 {
            if k > i + 2 {
                assert(is_param(top[k - i]));
            }
            lemma_one_escape(top, k - i - 1);
        }
        if settled(below) < below.len() {
            lemma_unsettled(below, settled(below) as int);
        }
    }
}

/// Only unfinished sequences are held back: what is held starts with an escape, and
/// holds nothing but escapes, a `[` behind an escape, one of `> = ? <` behind that, and
/// parameter bytes.  So any other byte brings out all that was held before it, unless
/// it completes a sequence that is removed.
pub proof fn law_only_unfinished_sequences_are_held(bytes: Seq<u8>, k: int)
    requires
        0 <= k < strip(bytes).1.len(),
    ensures
        ({
            let held = strip(bytes).1;
            &&& held[0] == 0x1b
            &&& {
                ||| held[k] == 0x1b
                ||| k >= 1 && held[k - 1] == 0x1b && held[k] == 0x5b
                ||| k >= 2 && held[k - 1] != 0x1b && 0x20 <= held[k] <= 0x3f
            }
            &&& k >= 2 && held[k] != 0x1b && held[k - 1] == 0x5b && held[k - 2] == 0x1b ==> held[k]
                == 0x3e || held[k] == 0x3d || held[k] == 0x3f || held[k] == 0x3c
        }),
{
    let text = fed(Seq::empty(), bytes);
    lemma_settled(text);
    let from = settled(text) as int;
    lemma_unsettled(text, from + k);
    lemma_unsettled(text, from);
}

/// A sequence that is complete passes as soon as it is, if it is none of those that are
/// removed: a private one that ends otherwise, `ESC [` with a byte that is none of
/// `> = ? <`, and an escape with any byte but `[` behind it.
pub proof fn law_other_sequences_pass(before: Seq<u8>, marker: u8, params: Seq<u8>, last: u8)
    requires
        strip(before).1 == Seq::<u8>::empty(),
        marker == 0x3e || marker == 0x3d || marker == 0x3f || marker == 0x3c,
        forall|k: int| 0 <= k < params.len() ==> 0x20 <= #[trigger] params[k] <= 0x3f,
        last != 0x1b,
    ensures
        !(0x20 <= last <= 0x3f) && last != 0x75 && !(last == 0x6d && marker == 0x3e) ==> strip(
            before + (seq![0x1b, 0x5b, marker] + params + seq![last]),
        ) == (
            strip(before).0 + (seq![0x1b, 0x5b, marker] + params + seq![last]),
            Seq::<u8>::empty(),
        ),
        last != 0x3e && last != 0x3d && last != 0x3f && last != 0x3c ==> strip(
            before + seq![0x1b, 0x5b, last],
        ) == (strip(before).0 + seq![0x1b, 0x5b, last], Seq::<u8>::empty()),
        last != 0x5b ==> strip(before + seq![0x1b, last]) == (
            strip(before).0 + seq![0x1b, last],
            Seq::<u8>::empty(),
        ),
{
    let s = seq![0x1b, 0x5b, marker] + params + seq![last];
    let n = s.len() as int;
    if !(0x20 <= last <= 0x3f) && last != 0x75 && !(last == 0x6d && marker == 0x3e) {
        assert(s.last() == last);
        assert(s[n - 1] == last);
        if is_open(s) {
            assert(is_param(s[n - 1]));
        }
        assert forall|k: int| 0 < k < n implies #[trigger] s[k] != ESC by {
            if 3 <= k < n - 1 {
                assert(s[k] == params[k - 3]);
            }
        }
        assert forall|y: int| 0 <= y <= n implies !is_negotiation(#[trigger] s.subrange(0, y)) by {
            let part = s.subrange(0, y);
            if 4 <= y < n {
                assert(part.last() == params[y - 4]);
            } else if y == n {
                assert(part == s);
            }
        }
        lemma_complete_passes(before, s);
    }
    let three = seq![0x1b, 0x5b, last];
    if last != 0x3e && last != 0x3d && last != 0x3f && last != 0x3c {
        assert(three[2] == last);
        lemma_complete_passes(before, three);
    }
    let two = seq![0x1b, last];
    if last != 0x5b {
        assert(two[1] == last);
        lemma_complete_passes(before, two);
    }
}

proof fn lemma_complete_passes(before: Seq<u8>, s: Seq<u8>)
    requires
        strip(before).1 == Seq::<u8>::empty(),
        s.len() > 0,
        s[0] == ESC,
        forall|k: int| 0 < k < s.len() ==> #[trigger] s[k] != ESC,
        !is_open(s),
        forall|y: int| 0 <= y <= s.len() ==> !is_negotiation(#[trigger] s.subrange(0, y)),
    ensures
        strip(before + s) == (strip(before).0 + s, Seq::<u8>::empty()),
{
    assert forall|x: int, y: int| 0 <= x <= y <= s.len() implies !is_negotiation(
        #[trigger] s.subrange(x, y),
    ) by {
        let part = s.subrange(x, y);
        if is_negotiation(part) {
            assert(part[0] == s[x]);
        }
    }
    lemma_clean_is_kept(s);
    lemma_last_esc_is(s, 0);
    assert(s.skip(0) == s);
    assert(s.take(s.len() as int) == s);
    assert(s.skip(s.len() as int) == Seq::<u8>::empty());
    assert(Seq::<u8>::empty() + s == s);
    law_cuts_do_not_matter(before, s);
}

} // verus!
