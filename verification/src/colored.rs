//! A view of the spans over the input, shown with one background colour per morpheme.
use vstd::prelude::*;
use vstd::string::*;
use hexga_ansi_color::{AnsiColor, AnsiColorKind, AnsiColorLayer};
use crate::byte_str::{byte_str_debug, decimal, ByteStr};
use crate::span::Span;
use crate::span_merger::SpanMerger;

verus! {

/// The colours of a terminal.
#[derive(Clone, Copy, PartialEq, Eq, Structural, Debug)]
pub enum TermColor {
    Reset,
    Black,
    Red,
    Green,
    Yellow,
    Blue,
    Magenta,
    Cyan,
    White,
    Gray,
}

/// Whether a colour applies to the text or to its background.
#[derive(Clone, Copy, PartialEq, Eq, Structural, Debug)]
pub enum TermLayer {
    Foreground,
    Background,
}

/// The number in the escape sequence that selects a colour on a layer.
pub open spec fn ansi_number(c: TermColor, l: TermLayer) -> nat {
    let base: nat = match c {
        TermColor::Black => 30,
        TermColor::Red => 31,
        TermColor::Green => 32,
        TermColor::Yellow => 33,
        TermColor::Blue => 34,
        TermColor::Magenta => 35,
        TermColor::Cyan => 36,
        TermColor::White => 37,
        TermColor::Gray => 90,
        TermColor::Reset => 39,
    };
    match l {
        TermLayer::Foreground => base,
        TermLayer::Background => base + 10,
    }
}

/// The escape sequence that selects a colour on a layer: `ESC [ number m`.
pub open spec fn ansi_code(c: TermColor, l: TermLayer) -> Seq<char> {
    seq!['\u{1b}', '['] + decimal(ansi_number(c, l)) + seq!['m']
}

/// Calls `hexga_ansi_color::AnsiColor::str` on the colour and layer given: the escape
/// sequence, which the crate's source writes out as constants (`"\x1b[34m"`, `"\x1b[44m"`...).
#[verifier::external_body]
fn ansi_str(color: TermColor, layer: TermLayer) -> (r: &'static str)
    ensures
        r@ == ansi_code(color, layer),
{
    let kind = match color {
        TermColor::Reset => AnsiColorKind::Reset, TermColor::Black => AnsiColorKind::Black,
        TermColor::Red => AnsiColorKind::Red, TermColor::Green => AnsiColorKind::Green,
        TermColor::Yellow => AnsiColorKind::Yellow, TermColor::Blue => AnsiColorKind::Blue,
        TermColor::Magenta => AnsiColorKind::Magenta, TermColor::Cyan => AnsiColorKind::Cyan,
        TermColor::White => AnsiColorKind::White, TermColor::Gray => AnsiColorKind::Gray,
    };
    let layer = match layer {
        TermLayer::Foreground => AnsiColorLayer::Foreground,
        TermLayer::Background => AnsiColorLayer::Background,
    };
    AnsiColor::new(kind, layer).str()
}

/// The background colours given to the morphemes in turn.
pub open spec fn rainbow(i: nat) -> TermColor {
    let r = i % 5;
    if r == 0 {
        TermColor::Blue
    } else if r == 1 {
        TermColor::Red
    } else if r == 2 {
        TermColor::Yellow
    } else if r == 3 {
        TermColor::Green
    } else {
        TermColor::Magenta
    }
}

/// The rainbow has five distinct colours, given in turn: two morphemes get the same colour
/// exactly when their places differ by a multiple of five, so two morphemes shown one after
/// the other never share a colour.
pub proof fn lemma_rainbow_distinct(i: nat, j: nat)
    ensures
        rainbow(i) == rainbow(j) <==> i % 5 == j % 5,
        rainbow(i) != rainbow(i + 1),
        rainbow(i) != TermColor::Black && rainbow(i) != TermColor::White,
{
    assert((i + 1) % 5 != i % 5);
}

fn rainbow_color(i: usize) -> (r: TermColor)
    ensures
        r == rainbow(i as nat),
{
    let r = i % 5;
    if r == 0 {
        TermColor::Blue
    } else if r == 1 {
        TermColor::Red
    } else if r == 2 {
        TermColor::Yellow
    } else if r == 3 {
        TermColor::Green
    } else {
        TermColor::Magenta
    }
}

/// The morphemes from span `i` on, each after the colour it is shown on: empty spans are
/// skipped, and the showing stops at the first span that reaches the end of the input.
/// `idx` is how many morphemes were shown before.
pub open spec fn render_body(x: Seq<u8>, sp: Seq<Span>, i: int, idx: nat) -> Seq<char>
    decreases sp.len() - i,
{
    if i < 0 || i >= sp.len() {
        Seq::empty()
    } else if sp[i].len == 0 {
        render_body(x, sp, i + 1, idx)
    } else if sp[i].spec_end() >= x.len() {
        Seq::empty()
    } else {
        ansi_code(rainbow(idx + 1), TermLayer::Background) + byte_str_debug(
            x.subrange(sp[i].begin as int, sp[i].spec_end()),
        ) + render_body(x, sp, i + 1, idx + 1)
    }
}

/// The spans of `sp` that cover at least one byte, in order.
pub open spec fn live_spans(sp: Seq<Span>) -> Seq<Span> {
    sp.filter(|s: Span| s.len > 0)
}

proof fn lemma_live_spans_cons(sp: Seq<Span>)
    requires
        sp.len() > 0,
    ensures
        sp[0].len > 0 ==> live_spans(sp) == seq![sp[0]] + live_spans(sp.drop_first()),
        sp[0].len == 0 ==> live_spans(sp) == live_spans(sp.drop_first()),
{
    let pred = |s: Span| s.len > 0;
    assert(sp =~= seq![sp[0]] + sp.drop_first());
    Seq::filter_distributes_over_add(seq![sp[0]], sp.drop_first(), pred);
    let one = seq![sp[0]];
    reveal_with_fuel(Seq::filter, 2);
    assert(one.drop_last() =~= Seq::<Span>::empty());
    assert(Seq::<Span>::empty().filter(pred) =~= Seq::<Span>::empty());
    if sp[0].len > 0 {
        assert(one.filter(pred) =~= one);
    } else {
        assert(one.filter(pred) =~= Seq::<Span>::empty());
    }
    assert(live_spans(sp) == one.filter(pred) + sp.drop_first().filter(pred));
    if sp[0].len > 0 {
        assert(live_spans(sp) =~= seq![sp[0]] + live_spans(sp.drop_first()));
    } else {
        assert(live_spans(sp) =~= live_spans(sp.drop_first()));
    }
}

proof fn lemma_render_shift(x: Seq<u8>, sp: Seq<Span>, i: int, idx: nat)
    requires
        1 <= i,
        sp.len() > 0,
    ensures
        render_body(x, sp, i, idx) == render_body(x, sp.drop_first(), i - 1, idx),
    decreases sp.len() - i,
{
    if i < sp.len() {
        assert(sp[i] == sp.drop_first()[i - 1]);
        lemma_render_shift(x, sp, i + 1, idx);
        lemma_render_shift(x, sp, i + 1, idx + 1);
    }
}

/// Empty spans change nothing to the picture: a row of spans is shown as the row of its
/// spans that cover at least one byte.
pub proof fn lemma_render_skips_empty_spans(x: Seq<u8>, sp: Seq<Span>, idx: nat)
    ensures
        render_body(x, sp, 0, idx) == render_body(x, live_spans(sp), 0, idx),
    decreases sp.len(),
{
    if sp.len() == 0 {
        reveal(Seq::filter);
        assert(live_spans(sp) =~= Seq::<Span>::empty());
    } else {
        let rest = sp.drop_first();
        lemma_live_spans_cons(sp);
        lemma_render_shift(x, sp, 1, idx);
        lemma_render_shift(x, sp, 1, idx + 1);
        lemma_render_skips_empty_spans(x, rest, idx);
        lemma_render_skips_empty_spans(x, rest, idx + 1);
        if sp[0].len > 0 {
            let l = live_spans(sp);
            assert(l[0] == sp[0]);
            assert(l.drop_first() =~= live_spans(rest));
            lemma_render_shift(x, l, 1, idx + 1);
        }
    }
}

/// Showing two rows one after the other: the picture of `a + b` is the picture of `a`, then
/// the picture of `b` with its colours going on from where `a` left them, when no span of
/// `a` reaches the end of the input.
pub proof fn lemma_render_append(x: Seq<u8>, a: Seq<Span>, b: Seq<Span>, idx: nat)
    requires
        forall|i: int| 0 <= i < a.len() && (#[trigger] a[i]).len > 0 ==> a[i].spec_end() < x.len(),
    ensures
        render_body(x, a + b, 0, idx) == render_body(x, a, 0, idx) + render_body(x, b, 0, idx + live_spans(a).len()),
    decreases a.len(),
{
    if a.len() == 0 {
        reveal(Seq::filter);
        assert(a + b =~= b);
        assert(live_spans(a) =~= Seq::<Span>::empty());
    } else {
        let a1 = a.drop_first();
        let ab = a + b;
        assert(ab.drop_first() =~= a1 + b);
        assert(ab[0] == a[0]);
        lemma_live_spans_cons(a);
        assert forall|i: int| 0 <= i < a1.len() && (#[trigger] a1[i]).len > 0 implies a1[i].spec_end() < x.len() by {
            assert(a1[i] == a[i + 1]);
        }
        lemma_render_shift(x, ab, 1, idx);
        lemma_render_shift(x, ab, 1, idx + 1);
        lemma_render_shift(x, a, 1, idx);
        lemma_render_shift(x, a, 1, idx + 1);
        lemma_render_append(x, a1, b, idx);
        lemma_render_append(x, a1, b, idx + 1);
        if a[0].len > 0 {
            assert(a[0].spec_end() < x.len());
            assert(live_spans(a).len() == 1 + live_spans(a1).len());
        }
    }
}

/// One morpheme that ends before the end of the input is shown as its text, read as UTF-8 or
/// as a list of bytes, on the next colour of the rainbow; a span that reaches the end shows
/// nothing.
pub proof fn lemma_render_one(x: Seq<u8>, s: Span, idx: nat)
    requires
        s.len > 0,
    ensures
        s.spec_end() < x.len() ==> render_body(x, seq![s], 0, idx) == ansi_code(rainbow(idx + 1), TermLayer::Background)
            + byte_str_debug(x.subrange(s.begin as int, s.spec_end())),
        s.spec_end() >= x.len() ==> render_body(x, seq![s], 0, idx) == Seq::<char>::empty(),
{
    if s.spec_end() < x.len() {
        assert(render_body(x, seq![s], 1, idx + 1) == Seq::<char>::empty());
        assert(render_body(x, seq![s], 0, idx) =~= ansi_code(rainbow(idx + 1), TermLayer::Background) + byte_str_debug(
            x.subrange(s.begin as int, s.spec_end()),
        ));
    }
}

/// The picture stops at the first span that reaches the end of the input: nothing after it
/// is shown.
pub proof fn lemma_render_stops_at_end(x: Seq<u8>, a: Seq<Span>, b: Seq<Span>, idx: nat)
    requires
        exists|i: int| 0 <= i < a.len() && (#[trigger] a[i]).len > 0 && a[i].spec_end() >= x.len(),
    ensures
        render_body(x, a + b, 0, idx) == render_body(x, a, 0, idx),
    decreases a.len(),
{
    let a1 = a.drop_first();
    let ab = a + b;
    assert(ab.drop_first() =~= a1 + b);
    assert(ab[0] == a[0]);
    lemma_render_shift(x, ab, 1, idx);
    lemma_render_shift(x, ab, 1, idx + 1);
    lemma_render_shift(x, a, 1, idx);
    lemma_render_shift(x, a, 1, idx + 1);
    if !(a[0].len > 0 && a[0].spec_end() >= x.len()) {
        let i = choose|i: int| 0 <= i < a.len() && (#[trigger] a[i]).len > 0 && a[i].spec_end() >= x.len();
        assert(i > 0);
        assert(a1[i - 1] == a[i]);
        lemma_render_stops_at_end(x, a1, b, idx);
        lemma_render_stops_at_end(x, a1, b, idx + 1);
    }
}

/// The whole picture: black text, the coloured morphemes, then white on black.
pub open spec fn render_all(x: Seq<u8>, sp: Seq<Span>) -> Seq<char> {
    ansi_code(TermColor::Black, TermLayer::Foreground) + seq![' ', '\n'] + render_body(x, sp, 0, 0)
        + ansi_code(TermColor::White, TermLayer::Foreground) + ansi_code(TermColor::Black, TermLayer::Background)
        + seq![' ', '\n']
}

/// No span end passes `usize::MAX`.
pub open spec fn ends_fit(sp: Seq<Span>) -> bool {
    forall|i: int| 0 <= i < sp.len() ==> (#[trigger] sp[i]).begin + sp[i].len <= usize::MAX
}

/// The spans of a merger, with the input they cut, for showing.
#[derive(Clone, Copy)]
pub struct SpanColored<'a> {
    pub input: ByteStr<'a>,
    pub span: &'a [Span],
}

impl<'a> SpanMerger<'a> {
    /// The spans and the input, ready to be shown.
    pub fn colored<'b>(&'b self) -> (r: SpanColored<'b>)
        ensures
            r.input@ == self.input@,
            r.span@ == self.spans@,
    {
        SpanColored { input: self.input, span: self.spans.as_slice() }
    }
}

/// The first index at which the span does not end by `max_byte` (binary search, as
/// `partition_point` does): exact when the spans that end by `max_byte` come first.
fn partition_point_end(sp: &[Span], max_byte: usize) -> (r: usize)
    requires
        ends_fit(sp@),
    ensures
        r <= sp@.len(),
        (forall|i: int, j: int| 0 <= i <= j < sp@.len() && (#[trigger] sp@[j]).spec_end() <= max_byte ==> (#[trigger] sp@[i]).spec_end() <= max_byte)
            ==> (forall|i: int| 0 <= i < r ==> (#[trigger] sp@[i]).spec_end() <= max_byte)
                && (forall|i: int| r <= i < sp@.len() ==> (#[trigger] sp@[i]).spec_end() > max_byte),
{
    let ghost partitioned = forall|i: int, j: int| 0 <= i <= j < sp@.len() && (#[trigger] sp@[j]).spec_end() <= max_byte ==> (#[trigger] sp@[i]).spec_end() <= max_byte;
    let mut lo: usize = 0;
    let mut hi: usize = sp.len();
    while lo < hi
        invariant
            lo <= hi <= sp@.len(),
            ends_fit(sp@),
            partitioned == (forall|i: int, j: int| 0 <= i <= j < sp@.len() && (#[trigger] sp@[j]).spec_end() <= max_byte ==> (#[trigger] sp@[i]).spec_end() <= max_byte),
            partitioned ==> forall|i: int| 0 <= i < lo ==> (#[trigger] sp@[i]).spec_end() <= max_byte,
            partitioned ==> forall|i: int| hi <= i < sp@.len() ==> (#[trigger] sp@[i]).spec_end() > max_byte,
        decreases hi - lo,
    {
        let mid = lo + (hi - lo) / 2;
        if sp[mid].end() <= max_byte {
            lo = mid + 1;
        } else {
            hi = mid;
        }
    }
    lo
}

impl<'a> SpanColored<'a> {
    /// Keeps the input up to `max_byte` and the spans that end by then.
    pub fn limit(self, max_byte: usize) -> (r: Self)
        requires
            ends_fit(self.span@),
        ensures
            r.input@ == self.input@.subrange(0, if max_byte < self.input@.len() { max_byte as int } else { self.input@.len() as int }),
            r.span@.len() <= self.span@.len(),
            r.span@ == self.span@.subrange(0, r.span@.len() as int),
            (forall|i: int, j: int| 0 <= i <= j < self.span@.len() && (#[trigger] self.span@[j]).spec_end() <= max_byte ==> (#[trigger] self.span@[i]).spec_end() <= max_byte)
                ==> (forall|i: int| 0 <= i < r.span@.len() ==> (#[trigger] self.span@[i]).spec_end() <= max_byte)
                    && (forall|i: int| r.span@.len() <= i < self.span@.len() ==> (#[trigger] self.span@[i]).spec_end() > max_byte),
    {
        let end_slice_idx = partition_point_end(self.span, max_byte);
        let n = self.input.len();
        let end = if max_byte < n { max_byte } else { n };
        SpanColored {
            input: self.input.slice(0, end),
            span: vstd::slice::slice_subrange(self.span, 0, end_slice_idx),
        }
    }

    /// The picture of the spans: each morpheme on its own background colour, in turn; empty
    /// spans are skipped and the picture stops at the first span that reaches the end of the
    /// input.
    pub fn render(&self) -> (r: String)
        requires
            ends_fit(self.span@),
        ensures
            r@ == render_all(self.input@, self.span@),
    {
        let ghost x = self.input@;
        let ghost sp = self.span@;
        let mut out = String::new();
        out.append(ansi_str(TermColor::Black, TermLayer::Foreground));
        proof {
            reveal_strlit(" \n");
        }
        out.append(" \n");
        let ghost head = out@;
        let n = self.span.len();
        let input_len = self.input.len();
        let mut rainbow_idx: usize = 0;
        let mut i: usize = 0;
        let mut stopped = false;
        while i < n && !stopped
            invariant
                n == sp.len(),
                input_len == x.len(),
                x == self.input@,
                sp == self.span@,
                ends_fit(sp),
                i <= n,
                rainbow_idx <= i,
                stopped ==> render_body(x, sp, i as int, rainbow_idx as nat) == Seq::<char>::empty(),
                out@ + render_body(x, sp, i as int, rainbow_idx as nat) == head + render_body(x, sp, 0, 0),
            decreases n - i + if stopped { 0int } else { 1int },
        {
            let s = self.span[i];
            if s.is_empty() {
                i += 1;
            } else if s.end() >= input_len {
                stopped = true;
            } else {
                rainbow_idx += 1;
                let color = rainbow_color(rainbow_idx);
                out.append(ansi_str(color, TermLayer::Background));
                let shown = s.get(self.input).debug_string();
                out.append(shown.as_str());
                proof {
                    assert(out@ + render_body(x, sp, i + 1, rainbow_idx as nat) =~= head + render_body(x, sp, 0, 0));
                }
                i += 1;
            }
        }
        proof {
            assert(render_body(x, sp, i as int, rainbow_idx as nat) == Seq::<char>::empty());
            assert(out@ == head + render_body(x, sp, 0, 0));
        }
        out.append(ansi_str(TermColor::White, TermLayer::Foreground));
        out.append(ansi_str(TermColor::Black, TermLayer::Background));
        out.append(" \n");
        proof {
            assert(out@ =~= render_all(x, sp));
        }
        out
    }
}

} // verus!
