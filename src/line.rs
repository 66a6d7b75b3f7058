//! One line of the grid (a row or a column), read from the wall that tiles
//! move toward: index 0 touches that wall.
use vstd::prelude::*;

verus! {

/// Tiles below this value may merge: the sum of two of them still fits in a `u64`.
pub const MERGE_LIMIT: u64 = 0x8000_0000_0000_0000;

/// Two tiles merge when their values are equal (and their sum fits).
pub open spec fn can_merge(a: u64, b: u64) -> bool {
    a == b && a < MERGE_LIMIT
}

/// A `u64` that stops at `u64::MAX` instead of wrapping.
pub open spec fn saturate(x: int) -> u64 {
    if x > u64::MAX {
        u64::MAX
    } else if x < 0 {
        0
    } else {
        x as u64
    }
}

/// Where the tiles of one line end up after a move: the slide at position `k`
/// says what fills cell `k`, counted from the wall.
#[derive(Clone, Copy, Debug, PartialEq, Eq, Structural)]
pub enum Slide {
    /// The tile that stood at the given index, with its value.
    Kept(usize, u64),
    /// The tiles that stood at the two indices, combined into one of the given value.
    Merged(usize, usize, u64),
}

/// The occupied cells of `line` at index `i` or later, in order, as (index, value).
pub open spec fn occupied_from(line: Seq<Option<u64>>, i: int) -> Seq<(usize, u64)>
    decreases line.len() - i,
{
    if i < 0 || i >= line.len() {
        seq![]
    } else {
        let rest = occupied_from(line, i + 1);
        match line[i] {
            Some(v) => seq![(i as usize, v)] + rest,
            None => rest,
        }
    }
}

/// Packs the tiles `es` against the wall: from the wall outward, the first two
/// that can merge become one, and a merged tile takes part in no other merge.
pub open spec fn combine(es: Seq<(usize, u64)>) -> Seq<Slide>
    decreases es.len(),
{
    if es.len() == 0 {
        seq![]
    } else if es.len() >= 2 && can_merge(es[0].1, es[1].1) {
        seq![Slide::Merged(es[0].0, es[1].0, (es[0].1 + es[1].1) as u64)] + combine(
            es.subrange(2, es.len() as int),
        )
    } else {
        seq![Slide::Kept(es[0].0, es[0].1)] + combine(es.subrange(1, es.len() as int))
    }
}

/// The result of moving the tiles of `line` toward index 0.
pub open spec fn slide_line(line: Seq<Option<u64>>) -> Seq<Slide> {
    combine(occupied_from(line, 0))
}

/// The value that a slide adds to the score: that of a merged tile, else nothing.
pub open spec fn slide_score(s: Slide) -> int {
    match s {
        Slide::Merged(_, _, v) => v as int,
        Slide::Kept(_, _) => 0,
    }
}

/// What a line's slides add to the score: the sum of the merged values.
pub open spec fn slides_gain(s: Seq<Slide>) -> int
    decreases s.len(),
{
    if s.len() == 0 {
        0
    } else {
        slides_gain(s.drop_last()) + slide_score(s.last())
    }
}

/// The tile that waits for a partner while a line is read, as a sequence.
spec fn pending_seq(p: Option<(usize, u64)>) -> Seq<(usize, u64)> {
    match p {
        Some(e) => seq![e],
        None => seq![],
    }
}

/// Moves the tiles of `line` toward index 0; returns the slides and the
/// points they score (saturated at `u64::MAX`).
pub fn slide_values(line: &Vec<Option<u64>>) -> (r: (Vec<Slide>, u64))
    ensures
        r.0@ == slide_line(line@),
        r.1 == saturate(slides_gain(r.0@)),
        slides_gain(r.0@) >= 0,
{
    let mut out: Vec<Slide> = Vec::new();
    let mut pending: Option<(usize, u64)> = None;
    let mut gain: u64 = 0;
    let mut i: usize = 0;
    while i < line.len()
        invariant
            i <= line.len(),
            out@ + combine(pending_seq(pending) + occupied_from(line@, i as int)) == slide_line(
                line@,
            ),
            gain == saturate(slides_gain(out@)),
            slides_gain(out@) >= 0,
        decreases line.len() - i,
    {
        let rest = Ghost(occupied_from(line@, i + 1));
        match line[i] {
            Some(v) => {
                assert(occupied_from(line@, i as int) == seq![(i, v)] + rest@);
                match pending {
                    Some(p) => {
                        let es = Ghost(seq![p, (i, v)] + rest@);
                        assert(pending_seq(pending) + occupied_from(line@, i as int) =~= es@);
                        assert(es@.subrange(2, es@.len() as int) =~= rest@);
                        assert(es@.subrange(1, es@.len() as int) =~= seq![(i, v)] + rest@);
                        if p.1 == v && v < MERGE_LIMIT {
                            let m = Slide::Merged(p.0, i, p.1 + v);
                            let ghost prev = out@;
                            out.push(m);
                            assert(out@.drop_last() =~= prev);
                            assert(slides_gain(out@) == slides_gain(prev) + slide_score(m));
                            gain = gain.saturating_add(p.1 + v);
                            pending = None;
                            assert(prev + (seq![m] + combine(rest@)) =~= out@ + combine(
                                pending_seq(pending) + rest@,
                            ));
                        } else {
                            let m = Slide::Kept(p.0, p.1);
                            let ghost prev = out@;
                            out.push(m);
                            assert(out@.drop_last() =~= prev);
                            assert(slides_gain(out@) == slides_gain(prev) + slide_score(m));
                            pending = Some((i, v));
                            assert(prev + (seq![m] + combine(seq![(i, v)] + rest@)) =~= out@
                                + combine(pending_seq(pending) + rest@));
                        }
                    },
                    None => {
                        pending = Some((i, v));
                        assert(pending_seq(None) + occupied_from(line@, i as int)
                            =~= pending_seq(pending) + rest@);
                    },
                }
            },
            None => {
                assert(occupied_from(line@, i as int) == rest@);
            },
        }
        i += 1;
    }
    assert(occupied_from(line@, i as int) =~= seq![]);
    match pending {
        Some(p) => {
            let m = Slide::Kept(p.0, p.1);
            let ghost prev = out@;
            assert(pending_seq(pending) + occupied_from(line@, i as int) =~= seq![p]);
            assert(seq![p].subrange(1, 1) =~= seq![]);
            out.push(m);
            assert(out@.drop_last() =~= prev);
            assert(slides_gain(out@) == slides_gain(prev) + slide_score(m));
            assert(combine(seq![]) =~= seq![]);
            assert(combine(seq![p]) =~= seq![m] + combine(seq![]));
            assert(prev + combine(seq![p]) =~= out@);
        },
        None => {
            assert(pending_seq(pending) + occupied_from(line@, i as int) =~= seq![]);
            assert(out@ + combine(seq![]) =~= out@);
        },
    }
    (out, gain)
}

/// `v` is a power of two.
pub open spec fn is_pow2(v: nat) -> bool
    decreases v,
{
    if v == 1 {
        true
    } else if v < 2 || v % 2 != 0 {
        false
    } else {
        is_pow2((v / 2) as nat)
    }
}

/// What a slide says of the line it came from: a kept tile stood at its
/// index with its value; a merged one comes from two tiles of one value, the
/// first nearer the wall, and is worth their sum.
pub open spec fn slide_fits(s: Slide, line: Seq<Option<u64>>) -> bool {
    match s {
        Slide::Kept(src, v) => src < line.len() && line[src as int] == Some(v),
        Slide::Merged(a, b, v) => {
            &&& a < b < line.len()
            &&& line[a as int] is Some
            &&& line[b as int] == line[a as int]
            &&& can_merge(line[a as int].unwrap(), line[b as int].unwrap())
            &&& v == line[a as int].unwrap() + line[b as int].unwrap()
        },
    }
}

proof fn lemma_occupied(line: Seq<Option<u64>>, i: int)
    requires
        0 <= i <= line.len(),
        line.len() <= usize::MAX,
    ensures
        occupied_from(line, i).len() <= line.len() - i,
        forall|j: int|
            0 <= j < occupied_from(line, i).len() ==> {
                let e = #[trigger] occupied_from(line, i)[j];
                &&& i <= e.0 < line.len()
                &&& line[e.0 as int] == Some(e.1)
            },
        forall|j1: int, j2: int|
            0 <= j1 < j2 < occupied_from(line, i).len() ==> #[trigger] occupied_from(line, i)[j1].0
                < #[trigger] occupied_from(line, i)[j2].0,
    decreases line.len() - i,
{
    if i < line.len() {
        lemma_occupied(line, i + 1);
        let rest = occupied_from(line, i + 1);
        match line[i] {
            Some(v) => {
                let es = occupied_from(line, i);
                assert(es == seq![(i as usize, v)] + rest);
                assert forall|j: int| 0 <= j < es.len() implies {
                    let e = #[trigger] es[j];
                    &&& i <= e.0 < line.len()
                    &&& line[e.0 as int] == Some(e.1)
                } by {
                    if j > 0 {
                        assert(es[j] == rest[j - 1]);
                    }
                }
                assert forall|j1: int, j2: int| 0 <= j1 < j2 < es.len() implies #[trigger] es[j1].0
                    < #[trigger] es[j2].0 by {
                    assert(es[j2] == rest[j2 - 1]);
                    if j1 > 0 {
                        assert(es[j1] == rest[j1 - 1]);
                    } else {
                        assert(rest[j2 - 1].0 >= i + 1);
                    }
                }
            },
            None => {},
        }
    }
}

proof fn lemma_combine_fits(es: Seq<(usize, u64)>, line: Seq<Option<u64>>)
    requires
        forall|j: int|
            0 <= j < es.len() ==> {
                let e = #[trigger] es[j];
                &&& e.0 < line.len()
                &&& line[e.0 as int] == Some(e.1)
            },
        forall|j1: int, j2: int|
            0 <= j1 < j2 < es.len() ==> #[trigger] es[j1].0 < #[trigger] es[j2].0,
    ensures
        combine(es).len() <= es.len(),
        forall|k: int| 0 <= k < combine(es).len() ==> slide_fits(#[trigger] combine(es)[k], line),
    decreases es.len(),
{
    if es.len() > 0 {
        let n: int = if es.len() >= 2 && can_merge(es[0].1, es[1].1) {
            2
        } else {
            1
        };
        let sub = es.subrange(n, es.len() as int);
        assert forall|j: int| 0 <= j < sub.len() implies {
            let e = #[trigger] sub[j];
            &&& e.0 < line.len()
            &&& line[e.0 as int] == Some(e.1)
        } by {
            assert(sub[j] == es[j + n]);
        }
        assert forall|j1: int, j2: int| 0 <= j1 < j2 < sub.len() implies #[trigger] sub[j1].0
            < #[trigger] sub[j2].0 by {
            assert(sub[j1] == es[j1 + n]);
            assert(sub[j2] == es[j2 + n]);
        }
        lemma_combine_fits(sub, line);
        let c = combine(es);
        assert(c == seq![c[0]] + combine(sub));
        if n == 2 {
            assert(es[0].0 < es[1].0);
        }
        assert forall|k: int| 0 <= k < c.len() implies slide_fits(#[trigger] c[k], line) by {
            if k > 0 {
                assert(c[k] == combine(sub)[k - 1]);
            }
        }
    }
}

/// Every slide of a line is read off that line: what it keeps stood there,
/// and what it merges were two tiles of one value, worth their sum together.
/// There are no more slides than cells.
pub proof fn lemma_slide_line(line: Seq<Option<u64>>)
    requires
        line.len() <= usize::MAX,
    ensures
        slide_line(line).len() <= line.len(),
        forall|k: int|
            0 <= k < slide_line(line).len() ==> slide_fits(#[trigger] slide_line(line)[k], line),
{
    lemma_occupied(line, 0);
    lemma_combine_fits(occupied_from(line, 0), line);
}

/// Merging keeps value: a merged tile is worth the sum of the two it replaces,
/// which hold one value; where that value is a power of two, so is the sum.
pub proof fn lemma_merge_conserves_value(line: Seq<Option<u64>>, k: int)
    requires
        line.len() <= usize::MAX,
        0 <= k < slide_line(line).len(),
    ensures
        match slide_line(line)[k] {
            Slide::Merged(a, b, v) => {
                &&& a != b
                &&& line[a as int] is Some
                &&& line[b as int] == line[a as int]
                &&& v == line[a as int].unwrap() + line[b as int].unwrap()
                &&& is_pow2(line[a as int].unwrap() as nat) ==> is_pow2(v as nat)
            },
            Slide::Kept(_, _) => true,
        },
{
    lemma_slide_line(line);
    if let Slide::Merged(a, b, v) = slide_line(line)[k] {
        assert(slide_fits(slide_line(line)[k], line));
        lemma_double_pow2(line[a as int].unwrap() as nat);
    }
}

/// Twice a power of two is a power of two.
pub proof fn lemma_double_pow2(x: nat)
    ensures
        is_pow2(x) ==> is_pow2(x + x),
{
    if is_pow2(x) {
        assert((x + x) % 2 == 0);
        assert(((x + x) / 2) as nat == x);
    }
}

/// Slides that merge nothing score nothing.
pub proof fn lemma_gain_without_merge(s: Seq<Slide>)
    requires
        forall|k: int| 0 <= k < s.len() ==> (#[trigger] s[k]) is Kept,
    ensures
        slides_gain(s) == 0,
    decreases s.len(),
{
    if s.len() > 0 {
        let d = s.drop_last();
        assert forall|k: int| 0 <= k < d.len() implies (#[trigger] d[k]) is Kept by {
            assert(d[k] == s[k]);
        }
        lemma_gain_without_merge(d);
        assert(s.last() == s[s.len() - 1]);
    }
}

/// A line's slides never lower the score.
pub proof fn lemma_slides_gain_nonneg(s: Seq<Slide>)
    ensures
        slides_gain(s) >= 0,
    decreases s.len(),
{
    if s.len() > 0 {
        lemma_slides_gain_nonneg(s.drop_last());
    }
}

proof fn lemma_occupied_full(line: Seq<Option<u64>>, i: int)
    requires
        0 <= i <= line.len(),
        line.len() <= usize::MAX,
        forall|k: int| 0 <= k < line.len() ==> (#[trigger] line[k]) is Some,
    ensures
        occupied_from(line, i) == Seq::new(
            (line.len() - i) as nat,
            |j: int| ((i + j) as usize, line[i + j].unwrap()),
        ),
    decreases line.len() - i,
{
    if i < line.len() {
        lemma_occupied_full(line, i + 1);
        assert(occupied_from(line, i) =~= Seq::new(
            (line.len() - i) as nat,
            |j: int| ((i + j) as usize, line[i + j].unwrap()),
        ));
    } else {
        assert(occupied_from(line, i) =~= Seq::new(
            (line.len() - i) as nat,
            |j: int| ((i + j) as usize, line[i + j].unwrap()),
        ));
    }
}

proof fn lemma_combine_no_pairs(es: Seq<(usize, u64)>)
    requires
        forall|j: int| 0 <= j < es.len() - 1 ==> !can_merge(#[trigger] es[j].1, es[j + 1].1),
    ensures
        combine(es) == es.map_values(|e: (usize, u64)| Slide::Kept(e.0, e.1)),
    decreases es.len(),
{
    if es.len() > 0 {
        let sub = es.subrange(1, es.len() as int);
        assert forall|j: int| 0 <= j < sub.len() - 1 implies !can_merge(
            #[trigger] sub[j].1,
            sub[j + 1].1,
        ) by {
            assert(sub[j] == es[j + 1]);
            assert(sub[j + 1] == es[j + 2]);
        }
        lemma_combine_no_pairs(sub);
        if es.len() >= 2 {
            assert(!can_merge(es[0].1, es[1].1));
        }
        assert(combine(es) =~= es.map_values(|e: (usize, u64)| Slide::Kept(e.0, e.1)));
    }
}

/// A line with a tile in every cell and no two neighbours that can merge
/// does not change: every tile is kept where it stands.
pub proof fn lemma_packed_line_stays(line: Seq<Option<u64>>)
    requires
        line.len() <= usize::MAX,
        forall|k: int| 0 <= k < line.len() ==> (#[trigger] line[k]) is Some,
        forall|k: int|
            0 <= k < line.len() - 1 ==> !can_merge(#[trigger] line[k].unwrap(), line[k + 1].unwrap()),
    ensures
        slide_line(line) == Seq::new(
            line.len(),
            |k: int| Slide::Kept(k as usize, line[k].unwrap()),
        ),
{
    lemma_occupied_full(line, 0);
    let es = occupied_from(line, 0);
    assert forall|j: int| 0 <= j < es.len() - 1 implies !can_merge(#[trigger] es[j].1, es[j + 1].1) by {
        assert(es[j].1 == line[j].unwrap());
        assert(es[j + 1].1 == line[j + 1].unwrap());
    }
    lemma_combine_no_pairs(es);
    assert(slide_line(line) =~= Seq::new(
        line.len(),
        |k: int| Slide::Kept(k as usize, line[k].unwrap()),
    ));
}

} // verus!
