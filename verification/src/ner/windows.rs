//! Reading a long text through windows that overlap.
use crate::stop_flag;
use crate::stop_flag::{next_number, Never, StopFlag};
use std::ops::Range;
use vstd::prelude::*;

verus! {

/// How many words a window holds.
pub const WINDOW_WORDS: usize = 128;

/// How many words two neighbouring windows share.
pub const WINDOW_OVERLAP: usize = 32;

/// Whether the search is to be given up.
pub struct Cancellation<'a, S: StopFlag> {
    pub flag: &'a S,
}

impl<'a, S: StopFlag> Cancellation<'a, S> {
    /// The flag can be asked.
    pub open spec fn can_ask(self) -> bool {
        self.flag.can_ask()
    }

    /// The flag gave this answer after `asked` other questions of a search.
    pub open spec fn shows(self, asked: nat, answer: bool) -> bool {
        stop_flag::answered(self.flag, asked, answer)
    }

    /// Gives the search up once the flag is raised.
    #[must_use]
    pub fn new(flag: &'a S) -> (r: Self)
        ensures
            r.flag == flag,
    {
        Cancellation { flag }
    }

    /// Whether the search is to be given up: what the flag answers now, as the first question.
    #[must_use]
    pub fn cancelled(&self) -> (r: bool)
        requires
            self.can_ask(),
        ensures
            self.shows(0, r),
    {
        self.flag.raised(0)
    }
}

impl Cancellation<'static, Never> {
    /// Never gives the search up.
    #[must_use]
    pub fn never() -> (r: Cancellation<'static, Never>)
        ensures
            r.can_ask(),
            forall|asked: nat| !#[trigger] r.shows(asked, true),
    {
        Cancellation { flag: &Never }
    }
}

/// Why there are no windows.
#[derive(Clone, Copy, Debug, PartialEq, Eq, Structural)]
pub enum WindowFault {
    EmptyWindow,
    OverlapTooLarge,
}

/// The window that begins at a word.
pub open spec fn window_at(count: int, max: int, start: int) -> Range<usize> {
    Range {
        start: start as usize,
        end: if start + max < count {
            (start + max) as usize
        } else {
            count as usize
        },
    }
}

/// The windows from `start` on, each `stride` words after the one before it.
pub open spec fn windows_from(count: int, max: int, stride: int, start: int) -> Seq<Range<usize>>
    decreases count - start,
{
    if start + max >= count || stride <= 0 || stride > max {
        seq![window_at(count, max, start)]
    } else {
        seq![window_at(count, max, start)] + windows_from(count, max, stride, start + stride)
    }
}

/// The windows of a text of `count` words.
pub open spec fn windows_of(count: nat, max: nat, overlap: nat) -> Seq<Range<usize>> {
    if count == 0 {
        Seq::empty()
    } else {
        windows_from(count as int, max as int, max - overlap, 0)
    }
}

/// The windows of a text of `token_count` words, of at most `max_tokens` words each, of which two
/// neighbours share `overlap`.
pub fn token_windows(token_count: usize, max_tokens: usize, overlap: usize) -> (r: Result<
    Vec<Range<usize>>,
    WindowFault,
>)
    requires
        token_count + max_tokens <= usize::MAX,
    ensures
        max_tokens == 0 ==> r == Err::<Vec<Range<usize>>, _>(WindowFault::EmptyWindow),
        0 < max_tokens <= overlap ==> r == Err::<Vec<Range<usize>>, _>(
            WindowFault::OverlapTooLarge,
        ),
        overlap < max_tokens ==> (r matches Ok(windows) && windows@ == windows_of(
            token_count as nat,
            max_tokens as nat,
            overlap as nat,
        )),
{
    if max_tokens == 0 {
        return Err(WindowFault::EmptyWindow);
    }
    if overlap >= max_tokens {
        return Err(WindowFault::OverlapTooLarge);
    }
    let mut windows: Vec<Range<usize>> = Vec::new();
    if token_count == 0 {
        assert(windows@ =~= Seq::empty());
        return Ok(windows);
    }
    let stride: usize = max_tokens - overlap;
    let mut start: usize = 0;
    let ghost all = windows_of(token_count as nat, max_tokens as nat, overlap as nat);
    assert(windows@ + all =~= all);
    while token_count - start > max_tokens
        invariant
            start <= token_count,
            0 < token_count,
            start == 0 || start < token_count,
            token_count + max_tokens <= usize::MAX,
            stride == max_tokens - overlap,
            0 < stride <= max_tokens,
            all == windows@ + windows_from(
                token_count as int,
                max_tokens as int,
                stride as int,
                start as int,
            ),
        decreases token_count - start,
    {
        let window = start..start + max_tokens;
        proof {
            let rest = windows_from(
                token_count as int,
                max_tokens as int,
                stride as int,
                start as int,
            );
            let after = windows_from(
                token_count as int,
                max_tokens as int,
                stride as int,
                start + stride,
            );
            assert(window == window_at(token_count as int, max_tokens as int, start as int));
            assert(rest == seq![window] + after);
            assert(windows@ + rest =~= windows@.push(window) + after);
        }
        windows.push(window);
        start = start + stride;
    }
    let window = start..token_count;
    proof {
        assert(window == window_at(token_count as int, max_tokens as int, start as int));
        assert(windows@ + seq![window] =~= windows@.push(window));
    }
    windows.push(window);
    Ok(windows)
}

proof fn lemma_windows_from(count: int, max: int, stride: int, start: int)
    requires
        0 <= start < count,
        0 < stride <= max,
        count + max <= usize::MAX,
    ensures
        ({
            let w = windows_from(count, max, stride, start);
            &&& w.len() > 0
            &&& w[0].start == start
            &&& w.last().end == count
            &&& forall|i: int|
                0 <= i < w.len() ==> (#[trigger] w[i]).start < w[i].end && w[i].end - w[i].start
                    <= max && w[i].start == start + i * stride && w[i].end <= count
            &&& forall|i: int|
                0 <= i < w.len() - 1 ==> (#[trigger] w[i]).end - w[i].start == max
        }),
    decreases count - start,
{
    let w = windows_from(count, max, stride, start);
    if start + max < count {
        lemma_windows_from(count, max, stride, start + stride);
        let rest = windows_from(count, max, stride, start + stride);
        assert forall|i: int| 0 <= i < w.len() implies (#[trigger] w[i]).start < w[i].end
            && w[i].end - w[i].start <= max && w[i].start == start + i * stride && w[i].end
            <= count by {
            if i > 0 {
                assert(w[i] == rest[i - 1]);
                assert(start + stride + (i - 1) * stride == start + i * stride)
                    by (nonlinear_arith);
            } else {
                assert(0 * stride == 0);
            }
        }
        assert forall|i: int| 0 <= i < w.len() - 1 implies (#[trigger] w[i]).end - w[i].start
            == max by {
            if i > 0 {
                assert(w[i] == rest[i - 1]);
            }
        }
        assert(w.last() == rest.last());
    } else {
        assert(0 * stride == 0);
    }
}

/// A window holds the word.
pub open spec fn is_covered(windows: Seq<Range<usize>>, word: int) -> bool {
    exists|i: int|
        0 <= i < windows.len() && (#[trigger] windows[i]).start <= word < windows[i].end
}

/// The windows cover every word, none is larger than allowed, and two neighbours share exactly the
/// overlap.
pub proof fn lemma_windows_cover(count: nat, max: nat, overlap: nat)
    requires
        0 < count,
        overlap < max,
        count + max <= usize::MAX,
    ensures
        forall|word: int|
            0 <= word < count ==> #[trigger] is_covered(windows_of(count, max, overlap), word),
        forall|i: int|
            0 <= i < windows_of(count, max, overlap).len() ==> (#[trigger] windows_of(
                count,
                max,
                overlap,
            )[i]).end - windows_of(count, max, overlap)[i].start <= max,
        forall|i: int, j: int|
            0 <= i < windows_of(count, max, overlap).len() && j == i + 1 && j < windows_of(
                count,
                max,
                overlap,
            ).len() ==> (#[trigger] windows_of(count, max, overlap)[i]).end - (
            #[trigger] windows_of(count, max, overlap)[j]).start == overlap,
{
    let w = windows_of(count, max, overlap);
    let stride = max - overlap;
    lemma_windows_from(count as int, max as int, stride, 0);
    assert forall|word: int| 0 <= word < count implies #[trigger] is_covered(w, word) by {
        lemma_covers(w, stride, max as int, word, 0);
    }
    assert forall|i: int, j: int| 0 <= i < w.len() && j == i + 1 && j < w.len() implies (
    #[trigger] w[i]).end - (#[trigger] w[j]).start == overlap by {
        assert(w[i].start == i * stride);
        assert(w[j].start == j * stride);
        assert(j * stride == i * stride + stride) by (nonlinear_arith)
            requires
                j == i + 1,
        ;
    }
}

/// The windows lie in the text, begin with its first word and end with its last, and none begins
/// after the one before it has ended.
pub proof fn lemma_windows_link(count: nat, max: nat, overlap: nat)
    requires
        0 < count,
        overlap < max,
        count + max <= usize::MAX,
    ensures
        ({
            let w = windows_of(count, max, overlap);
            &&& w.len() > 0
            &&& w[0].start == 0
            &&& w.last().end == count
            &&& forall|i: int|
                0 <= i < w.len() ==> (#[trigger] w[i]).start < w[i].end && w[i].end <= count
            &&& forall|i: int, j: int|
                0 <= i && j == i + 1 && j < w.len() ==> (#[trigger] w[j]).start <= (
                #[trigger] w[i]).end
        }),
{
    lemma_windows_from(count as int, max as int, max - overlap, 0);
    lemma_windows_cover(count, max, overlap);
}

/// A word at or after the start of window `i` is in that window or in a later one.
proof fn lemma_covers(w: Seq<Range<usize>>, stride: int, max: int, word: int, i: int)
    requires
        0 <= i < w.len(),
        0 < stride <= max,
        forall|k: int| 0 <= k < w.len() ==> (#[trigger] w[k]).start == k * stride,
        forall|k: int| 0 <= k < w.len() - 1 ==> (#[trigger] w[k]).end - w[k].start == max,
        w[i].start <= word < w.last().end,
    ensures
        is_covered(w, word),
    decreases w.len() - i,
{
    if word < w[i].end {
    } else {
        assert(i < w.len() - 1);
        assert(w[i + 1].start == (i + 1) * stride);
        assert((i + 1) * stride == i * stride + stride) by (nonlinear_arith);
        lemma_covers(w, stride, max, word, i + 1);
    }
}

// ---------------------------------------------------------------------------------------------
// Windows that are too long for the model
// ---------------------------------------------------------------------------------------------

/// What is done with a window.
#[derive(Debug)]
pub enum WindowEncoding<T> {
    Ready(T),
    Split(Range<usize>, Range<usize>),
}

/// A single word is too long for the model.
#[derive(Clone, Copy, Debug, PartialEq, Eq, Structural)]
pub struct WordTooLong;

/// The two halves of a window. They share up to [`WINDOW_OVERLAP`] words.
pub open spec fn halves(window: Range<usize>) -> (Range<usize>, Range<usize>) {
    let len = window.end - window.start;
    let mid = window.start + len / 2;
    let shared = if len / 2 < 1 {
        0
    } else if len / 2 - 1 < WINDOW_OVERLAP {
        len / 2 - 1
    } else {
        WINDOW_OVERLAP as int
    };
    (
        Range { start: window.start, end: mid as usize },
        Range { start: (mid - shared) as usize, end: window.end },
    )
}

/// What is done with a window once it was put into the model's tokens: it is read, or halved where
/// it does not fit.
pub fn fit_window<T>(window: Range<usize>, fits: bool, encoded: T) -> (r: Result<
    WindowEncoding<T>,
    WordTooLong,
>)
    requires
        window.start < window.end,
    ensures
        fits ==> r == Ok::<WindowEncoding<T>, WordTooLong>(WindowEncoding::Ready(encoded)),
        !fits && window.end - window.start == 1 ==> r == Err::<WindowEncoding<T>, WordTooLong>(
            WordTooLong,
        ),
        !fits && window.end - window.start > 1 ==> r == Ok::<WindowEncoding<T>, WordTooLong>(
            WindowEncoding::Split(halves(window).0, halves(window).1),
        ),
{
    let len: usize = window.end - window.start;
    if !fits && len > 1 {
        let half: usize = len / 2;
        let mid: usize = window.start + half;
        let shared: usize = if half - 1 < WINDOW_OVERLAP {
            half - 1
        } else {
            WINDOW_OVERLAP
        };
        return Ok(WindowEncoding::Split(window.start..mid, mid - shared..window.end));
    }
    if !fits {
        return Err(WordTooLong);
    }
    Ok(WindowEncoding::Ready(encoded))
}

/// Both halves are shorter than the window, neither is empty, and together they hold all its words.
pub proof fn lemma_halves(window: Range<usize>)
    requires
        window.start + 1 < window.end,
    ensures
        ({
            let (a, b) = halves(window);
            &&& a.start == window.start
            &&& b.end == window.end
            &&& b.start <= a.end
            &&& a.start < a.end
            &&& b.start < b.end
            &&& window.start < b.start
            &&& a.end < window.end
        }),
{
}

/// Three to the power of `n`: more than twice as much for every further word.
spec fn weight(n: nat) -> nat
    decreases n,
{
    if n == 0 {
        1
    } else {
        3 * weight((n - 1) as nat)
    }
}

proof fn lemma_weight(a: nat, n: nat)
    requires
        a < n,
    ensures
        weight(a) >= 1,
        3 * weight(a) <= weight(n),
    decreases n,
{
    if a + 1 < n {
        lemma_weight(a, (n - 1) as nat);
    } else if a > 0 {
        lemma_weight((a - 1) as nat, a);
    }
}

proof fn lemma_weight_positive(n: nat)
    ensures
        weight(n) >= 1,
    decreases n,
{
    if n > 0 {
        lemma_weight_positive((n - 1) as nat);
    }
}

spec fn len_of(window: Range<usize>) -> nat {
    if window.start <= window.end {
        (window.end - window.start) as nat
    } else {
        0
    }
}

spec fn total_weight(windows: Seq<Range<usize>>) -> nat
    decreases windows.len(),
{
    if windows.len() == 0 {
        0
    } else {
        weight(len_of(windows[0])) + total_weight(windows.drop_first())
    }
}

/// Every part of a window is a window, and shorter than it.
pub open spec fn are_parts(window: Range<usize>, left: Range<usize>, right: Range<usize>) -> bool {
    &&& left.start <= left.end
    &&& right.start <= right.end
    &&& left.end - left.start < window.end - window.start
    &&& right.end - right.start < window.end - window.start
}

/// The window is one of these, or a part of one of them after at most `steps` splits.
pub open spec fn arises_in<
    T,
    E,
    Encode: FnMut(Range<usize>) -> Result<WindowEncoding<T>, E>,
>(encode: Encode, windows: Seq<Range<usize>>, window: Range<usize>, steps: nat) -> bool
    decreases steps,
{
    ||| windows.contains(window)
    ||| steps > 0 && exists|whole: Range<usize>, left: Range<usize>, right: Range<usize>|
        {
            &&& arises_in(encode, windows, whole, (steps - 1) as nat)
            &&& #[trigger] call_ensures(encode, (whole,), Ok(WindowEncoding::Split(left, right)))
            &&& window == left || window == right
        }
}

/// The window is one of these, or a part of one of them.
pub open spec fn arises<
    T,
    E,
    Encode: FnMut(Range<usize>) -> Result<WindowEncoding<T>, E>,
>(encode: Encode, windows: Seq<Range<usize>>, window: Range<usize>) -> bool {
    exists|steps: nat| #[trigger] arises_in(encode, windows, window, steps)
}

proof fn lemma_parts_arise<
    T,
    E,
    Encode: FnMut(Range<usize>) -> Result<WindowEncoding<T>, E>,
>(
    encode: Encode,
    windows: Seq<Range<usize>>,
    whole: Range<usize>,
    left: Range<usize>,
    right: Range<usize>,
)
    requires
        arises(encode, windows, whole),
        call_ensures(encode, (whole,), Ok(WindowEncoding::Split(left, right))),
    ensures
        arises(encode, windows, left),
        arises(encode, windows, right),
{
    let steps = choose|steps: nat| #[trigger] arises_in(encode, windows, whole, steps);
    assert(arises_in(encode, windows, left, steps + 1));
    assert(arises_in(encode, windows, right, steps + 1));
}

/// What a search goes by: what a window may be put into, what may be found in it, and what may be
/// answered to each question whether to give up.
#[verifier::reject_recursive_types(T)]
#[verifier::reject_recursive_types(O)]
#[verifier::reject_recursive_types(E)]
pub struct Means<T, O, E> {
    pub put: spec_fn(Range<usize>, Result<WindowEncoding<T>, E>) -> bool,
    pub find: spec_fn(Range<usize>, T, Result<Vec<O>, E>) -> bool,
    pub answers: spec_fn(nat, bool) -> bool,
}

/// What was done with a window in a search that went on.
pub enum Step<O> {
    /// It was read, and this was found in it.
    Found(Seq<O>),
    /// It was split into two.
    Split(Range<usize>, Range<usize>),
}

/// The windows that are left after the steps, the next one first. The parts of a window take its
/// place.
pub open spec fn left_after<O>(windows: Seq<Range<usize>>, steps: Seq<Step<O>>) -> Seq<Range<usize>>
    decreases steps.len(),
{
    if steps.len() == 0 {
        windows
    } else {
        let left = left_after(windows, steps.drop_last());
        match steps.last() {
            Step::Found(_) => left.drop_first(),
            Step::Split(a, b) => seq![a, b] + left.drop_first(),
        }
    }
}

/// How many questions the steps took: one before a window is put into tokens, and one before it is
/// read.
pub open spec fn asked_in<O>(steps: Seq<Step<O>>) -> nat
    decreases steps.len(),
{
    if steps.len() == 0 {
        0
    } else {
        asked_in(steps.drop_last()) + match steps.last() {
            Step::Found(_) => 2nat,
            Step::Split(_, _) => 1nat,
        }
    }
}

/// The windows that were read in the steps, in their order.
pub open spec fn read_in<O>(windows: Seq<Range<usize>>, steps: Seq<Step<O>>) -> Seq<Range<usize>>
    decreases steps.len(),
{
    if steps.len() == 0 {
        Seq::empty()
    } else {
        let read = read_in(windows, steps.drop_last());
        match steps.last() {
            Step::Found(_) => read.push(left_after(windows, steps.drop_last())[0]),
            Step::Split(_, _) => read,
        }
    }
}

/// All that was found in the steps.
pub open spec fn found_in<O>(steps: Seq<Step<O>>) -> Seq<O>
    decreases steps.len(),
{
    if steps.len() == 0 {
        Seq::empty()
    } else {
        match steps.last() {
            Step::Found(some) => found_in(steps.drop_last()) + some,
            Step::Split(_, _) => found_in(steps.drop_last()),
        }
    }
}

impl<T, O, E> Means<T, O, E> {
    /// The window can be put into these tokens.
    pub open spec fn readies(self, window: Range<usize>, encoded: T) -> bool {
        (self.put)(window, Ok(WindowEncoding::Ready(encoded)))
    }

    /// After `asked` questions the window was read, and this was found in it: neither question about
    /// it was answered yes.
    pub open spec fn reads(self, window: Range<usize>, asked: nat, some: Seq<O>) -> bool {
        &&& (self.answers)(asked, false)
        &&& (self.answers)(asked + 1, false)
        &&& exists|encoded: T, found: Vec<O>|
            {
                &&& self.readies(window, encoded)
                &&& #[trigger] (self.find)(window, encoded, Ok(found))
                &&& found@ == some
            }
    }

    /// After `asked` questions the window was split, and the question about it was answered no.
    pub open spec fn splits(
        self,
        window: Range<usize>,
        asked: nat,
        left: Range<usize>,
        right: Range<usize>,
    ) -> bool {
        (self.answers)(asked, false) && (self.put)(window, Ok(WindowEncoding::Split(left, right)))
    }

    /// After `asked` questions the search was given up at the window: before it was put into tokens,
    /// or before it was read.
    pub open spec fn gives_up(self, window: Range<usize>, asked: nat) -> bool {
        ||| (self.answers)(asked, true)
        ||| {
            &&& (self.answers)(asked, false)
            &&& exists|encoded: T| #[trigger] self.readies(window, encoded)
            &&& (self.answers)(asked + 1, true)
        }
    }

    /// After `asked` questions the window failed: it could not be put into tokens, or could not be
    /// read.
    pub open spec fn fails(self, window: Range<usize>, asked: nat, error: E) -> bool {
        &&& (self.answers)(asked, false)
        &&& {
            ||| (self.put)(window, Err(error))
            ||| {
                &&& (self.answers)(asked + 1, false)
                &&& exists|encoded: T|
                    #[trigger] self.readies(window, encoded) && (self.find)(
                        window,
                        encoded,
                        Err(error),
                    )
            }
        }
    }

    /// The steps were taken one after the other, each with the window that came next.
    pub open spec fn takes(self, windows: Seq<Range<usize>>, steps: Seq<Step<O>>) -> bool
        decreases steps.len(),
    {
        steps.len() > 0 ==> {
            let left = left_after(windows, steps.drop_last());
            let asked = asked_in(steps.drop_last());
            &&& self.takes(windows, steps.drop_last())
            &&& left.len() > 0
            &&& match steps.last() {
                Step::Found(some) => self.reads(left[0], asked, some),
                Step::Split(a, b) => self.splits(left[0], asked, a, b),
            }
        }
    }

    /// The search comes to this. It goes from window to window until none is left, a question is
    /// answered yes or a window fails.
    pub open spec fn comes_to(
        self,
        windows: Seq<Range<usize>>,
        steps: Seq<Step<O>>,
        r: Result<Option<Seq<O>>, E>,
    ) -> bool {
        let left = left_after(windows, steps);
        &&& self.takes(windows, steps)
        &&& match r {
            Ok(Some(found)) => left.len() == 0 && found == found_in(steps),
            Ok(None) => left.len() > 0 && self.gives_up(left[0], asked_in(steps)),
            Err(error) => left.len() > 0 && self.fails(left[0], asked_in(steps), error),
        }
    }
}

/// What a search goes by that is made of calls.
pub open spec fn means_of<
    T,
    O,
    E,
    Encode: FnMut(Range<usize>) -> Result<WindowEncoding<T>, E>,
    Infer: FnMut(Range<usize>, T) -> Result<Vec<O>, E>,
    S: StopFlag,
>(encode: Encode, infer: Infer, cancellation: Cancellation<'_, S>) -> Means<T, O, E> {
    Means {
        put: |window: Range<usize>, out: Result<WindowEncoding<T>, E>|
            call_ensures(encode, (window,), out),
        find: |window: Range<usize>, encoded: T, out: Result<Vec<O>, E>|
            call_ensures(infer, (window, encoded), out),
        answers: |asked: nat, answer: bool| cancellation.shows(asked, answer),
    }
}

/// What was found, as a sequence.
pub open spec fn as_found<O, E>(r: Result<Option<Vec<O>>, E>) -> Result<Option<Seq<O>>, E> {
    match r {
        Ok(Some(found)) => Ok(Some(found@)),
        Ok(None) => Ok(None),
        Err(error) => Err(error),
    }
}

/// Reads the windows one after the other, halves first where a window was split, and gives what
/// was found in all of them; nothing where the search is given up. Before a window is put into
/// tokens, and again before it is read, it is asked whether to give up.
pub fn run_windowed_extraction<
    T,
    O,
    E,
    Encode: FnMut(Range<usize>) -> Result<WindowEncoding<T>, E>,
    Infer: FnMut(Range<usize>, T) -> Result<Vec<O>, E>,
    S: StopFlag,
>(
    windows: Vec<Range<usize>>,
    cancellation: &Cancellation<'_, S>,
    encode: Encode,
    infer: Infer,
) -> (r: Result<Option<Vec<O>>, E>)
    requires
        cancellation.can_ask(),
        forall|i: int| 0 <= i < windows@.len() ==> (#[trigger] windows@[i]).start
            <= windows@[i].end,
        forall|w: Range<usize>| #[trigger]
            arises(encode, windows@, w) ==> call_requires(encode, (w,)),
        forall|w: Range<usize>, t: T|
            arises(encode, windows@, w) && #[trigger] call_ensures(
                encode,
                (w,),
                Ok(WindowEncoding::Ready(t)),
            ) ==> call_requires(infer, (w, t)),
        forall|w: Range<usize>, left: Range<usize>, right: Range<usize>|
            arises(encode, windows@, w) && #[trigger] call_ensures(
                encode,
                (w,),
                Ok(WindowEncoding::Split(left, right)),
            ) ==> are_parts(w, left, right),
    ensures
        exists|steps: Seq<Step<O>>| #[trigger]
            means_of(encode, infer, *cancellation).comes_to(windows@, steps, as_found(r)),
{
    let mut rest = windows;
    let mut output: Vec<O> = Vec::new();
    let ghost all = windows@;
    let ghost means = means_of(encode, infer, *cancellation);
    let ghost mut steps: Seq<Step<O>> = Seq::empty();
    let mut number: usize = 0;
    let mut put_in = encode;
    let mut find_in = infer;
    proof {
        assert forall|i: int| 0 <= i < rest@.len() implies arises(
            encode,
            all,
            #[trigger] rest@[i],
        ) by {
            assert(all.contains(rest@[i]));
            assert(arises_in(encode, all, rest@[i], 0));
        }
    }
    while rest.len() > 0
        invariant
            forall|i: int| 0 <= i < rest@.len() ==> (#[trigger] rest@[i]).start <= rest@[i].end,
            forall|w: Range<usize>| #[trigger]
                arises(encode, all, w) ==> call_requires(encode, (w,)),
            forall|w: Range<usize>, t: T|
                arises(encode, all, w) && #[trigger] call_ensures(
                    encode,
                    (w,),
                    Ok(WindowEncoding::Ready(t)),
                ) ==> call_requires(infer, (w, t)),
            forall|w: Range<usize>, left: Range<usize>, right: Range<usize>|
                arises(encode, all, w) && #[trigger] call_ensures(
                    encode,
                    (w,),
                    Ok(WindowEncoding::Split(left, right)),
                ) ==> are_parts(w, left, right),
            all == windows@,
            cancellation.can_ask(),
            forall|i: int| 0 <= i < rest@.len() ==> arises(encode, all, #[trigger] rest@[i]),
            put_in == encode,
            find_in == infer,
            means == means_of(encode, infer, *cancellation),
            means.takes(all, steps),
            rest@ == left_after(all, steps),
            output@ == found_in(steps),
            number == stop_flag::number_of(asked_in(steps)),
        decreases total_weight(rest@),
    {
        let ghost before = rest@;
        let ghost asked = asked_in(steps);
        let window = rest.remove(0);
        assert(window == before[0]);
        assert(rest@ =~= before.drop_first());
        assert(arises(encode, all, before[0]));
        let stop = cancellation.flag.raised(number);
        assert((means.answers)(asked, stop));
        if stop {
            assert(means.comes_to(all, steps, Ok(None)));
            return Ok(None);
        }
        number = next_number(number, Ghost(asked));
        let start: usize = window.start;
        let end: usize = window.end;
        match put_in(start..end) {
            Ok(WindowEncoding::Ready(encoded)) => {
                let ghost given = encoded;
                assert(means.readies(before[0], given));
                let stop = cancellation.flag.raised(number);
                assert((means.answers)(asked + 1, stop));
                if stop {
                    assert(means.comes_to(all, steps, Ok(None)));
                    return Ok(None);
                }
                number = next_number(number, Ghost(asked + 1));
                match find_in(start..end, encoded) {
                    Ok(found) => {
                        let ghost some = found;
                        let mut found = found;
                        output.append(&mut found);
                        proof {
                            assert((means.find)(before[0], given, Ok(some)));
                            assert(means.reads(before[0], asked, some@));
                            let next = steps.push(Step::Found(some@));
                            assert(next.drop_last() =~= steps);
                            steps = next;
                            lemma_weight_positive(len_of(window));
                        }
                    },
                    Err(e) => {
                        assert((means.find)(before[0], given, Err(e)));
                        assert(means.comes_to(all, steps, Err(e)));
                        return Err(e);
                    },
                }
            },
            Ok(WindowEncoding::Split(left, right)) => {
                let ghost l = left;
                let ghost rt = right;
                assert(means.splits(before[0], asked, l, rt));
                assert(are_parts(window, l, rt));
                rest.insert(0, right);
                let ghost mid = rest@;
                rest.insert(0, left);
                proof {
                    let tail0 = before.drop_first();
                    assert(mid.drop_first() =~= tail0);
                    assert(rest@.drop_first() =~= mid);
                    assert(rest@ =~= seq![l, rt] + tail0);
                    lemma_weight(len_of(l), len_of(window));
                    lemma_weight(len_of(rt), len_of(window));
                    assert(total_weight(mid) == weight(len_of(rt)) + total_weight(tail0));
                    assert(total_weight(rest@) == weight(len_of(l)) + total_weight(mid));
                    assert(total_weight(before) == weight(len_of(window)) + total_weight(tail0));
                    let next = steps.push(Step::Split(l, rt));
                    assert(next.drop_last() =~= steps);
                    steps = next;
                    lemma_parts_arise(encode, all, window, l, rt);
                    assert forall|i: int| 0 <= i < rest@.len() implies arises(
                        encode,
                        all,
                        #[trigger] rest@[i],
                    ) by {
                        if i >= 2 {
                            assert(rest@[i] == before[i - 1]);
                        }
                    }
                    assert forall|i: int| 0 <= i < rest@.len() implies (
                    #[trigger] rest@[i]).start <= rest@[i].end by {
                        if i >= 2 {
                            assert(rest@[i] == before[i - 1]);
                        }
                    }
                }
            },
            Err(e) => {
                assert((means.put)(before[0], Err(e)));
                assert(means.comes_to(all, steps, Err(e)));
                return Err(e);
            },
        }
    }
    assert(means.comes_to(all, steps, Ok(Some(output@))));
    Ok(Some(output))
}

/// Every question is put and answered no before a search goes on: one before each window is put into
/// tokens, and one before each is read.
pub proof fn lemma_every_question_is_put<T, O, E>(
    means: Means<T, O, E>,
    windows: Seq<Range<usize>>,
    steps: Seq<Step<O>>,
)
    requires
        means.takes(windows, steps),
    ensures
        asked_in(steps) == steps.len() + read_in(windows, steps).len(),
        forall|asked: nat|
            asked < asked_in(steps) ==> #[trigger] (means.answers)(asked, false),
    decreases steps.len(),
{
    if steps.len() > 0 {
        let before = steps.drop_last();
        lemma_every_question_is_put(means, windows, before);
        let n = asked_in(before);
        assert forall|asked: nat| asked < asked_in(steps) implies #[trigger] (means.answers)(
            asked,
            false,
        ) by {
            assert(asked < n || asked == n || asked == n + 1);
        }
    }
}

/// A search is given up at the first question that is answered yes, and puts none after it.
pub proof fn lemma_given_up_at_the_first_yes<T, O, E>(
    means: Means<T, O, E>,
    windows: Seq<Range<usize>>,
    steps: Seq<Step<O>>,
)
    requires
        means.comes_to(windows, steps, Ok(None)),
    ensures
        exists|yes: nat|
            {
                &&& asked_in(steps) <= yes <= asked_in(steps) + 1
                &&& #[trigger] (means.answers)(yes, true)
                &&& forall|asked: nat| asked < yes ==> #[trigger] (means.answers)(asked, false)
            },
{
    lemma_every_question_is_put(means, windows, steps);
    let n = asked_in(steps);
    if (means.answers)(n, true) {
    } else {
        assert((means.answers)(n + 1, true));
        assert forall|asked: nat| asked < n + 1 implies #[trigger] (means.answers)(
            asked,
            false,
        ) by {
            assert(asked < n || asked == n);
        }
    }
}

/// Where a question would be answered yes, a search does not get past it.
pub proof fn lemma_a_raised_flag_ends_the_search<T, O, E>(
    means: Means<T, O, E>,
    windows: Seq<Range<usize>>,
    steps: Seq<Step<O>>,
    yes: nat,
)
    requires
        means.takes(windows, steps),
        !(means.answers)(yes, false),
    ensures
        asked_in(steps) <= yes,
        steps.len() + read_in(windows, steps).len() <= yes,
{
    lemma_every_question_is_put(means, windows, steps);
}

/// The first half ends in the middle of the window, and the second begins before it by as many words
/// as both share: 32, or all of the first half but one word where that is less.
pub proof fn lemma_halves_share_words(window: Range<usize>)
    requires
        window.start + 1 < window.end,
    ensures
        ({
            let (a, b) = halves(window);
            let len = window.end - window.start;
            &&& len - 1 <= 2 * (a.end - a.start) <= len
            &&& a.end - b.start <= 32
            &&& a.end - b.start < a.end - a.start
            &&& a.end - b.start == 32 || a.end - b.start == a.end - a.start - 1
        }),
{
}

} // verus!
