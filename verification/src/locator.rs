//! From per-column match scores to digit positions.
//!
//! Every template comes with one score per picture column. The scan walks the
//! columns from left to right, remembers the strongest score that reaches the
//! threshold, and commits it once a full digit width has gone by without a
//! stronger one.

use vstd::prelude::*;

verus! {

/// A match score. Scores are compared, never computed with: any scale will
/// do on which a larger number is a better match and 0 is no match at all.
pub type Score = u32;

/// The score of a perfect match on the scale of parts per million.
pub const SCORE_ONE: Score = 1_000_000;

/// The floor below which no digit is reported, on the scale of [`SCORE_ONE`].
pub const THRESHOLD: Score = 600_000;

/// A digit found in the picture: which template matched, how well, and at
/// which column.
#[derive(Clone, Copy, Debug, PartialEq, Eq, Structural)]
pub struct DigitPos {
    pub digit: usize,
    pub score: Score,
    pub pos: usize,
}

/// The state of a scan: what has been committed, and the strongest match
/// seen since.
pub struct Scan {
    pub emitted: Seq<DigitPos>,
    pub best: Option<DigitPos>,
}

/// The score tables of all templates as sequences.
pub open spec fn columns(scores: &Vec<Vec<Score>>) -> Seq<Seq<Score>> {
    Seq::new(scores@.len(), |t: int| scores@[t]@)
}

/// The length of the shortest among the first `n` score sequences, `n >= 1`.
pub open spec fn shortest(scores: Seq<Seq<Score>>, n: nat) -> nat
    decreases n,
{
    if n <= 1 {
        scores[0].len()
    } else {
        let rest = shortest(scores, (n - 1) as nat);
        if scores[n - 1].len() < rest {
            scores[n - 1].len()
        } else {
            rest
        }
    }
}

/// How many columns are scanned: as many as every template has a score for,
/// none where there is no template.
pub open spec fn scan_len(scores: Seq<Seq<Score>>) -> nat {
    if scores.len() == 0 {
        0
    } else {
        shortest(scores, scores.len())
    }
}

/// The score to beat: that of the strongest match so far, 0 without one.
pub open spec fn best_score(best: Option<DigitPos>) -> Score {
    match best {
        Some(c) => c.score,
        None => 0,
    }
}

/// Holds `score` of template `digit` at column `pos` against the strongest
/// match so far: it takes over if it reaches the threshold and is stronger.
pub open spec fn offer(
    best: Option<DigitPos>,
    digit: nat,
    pos: nat,
    score: Score,
    threshold: Score,
) -> Option<DigitPos> {
    if score >= threshold && score > best_score(best) {
        Some(DigitPos { digit: digit as usize, score, pos: pos as usize })
    } else {
        best
    }
}

/// Offers the scores of the first `n` templates at column `x`, in order.
pub open spec fn offer_column(
    best: Option<DigitPos>,
    scores: Seq<Seq<Score>>,
    x: nat,
    n: nat,
    threshold: Score,
) -> Option<DigitPos>
    decreases n,
{
    if n == 0 {
        best
    } else {
        offer(
            offer_column(best, scores, x, (n - 1) as nat, threshold),
            (n - 1) as nat,
            x,
            scores[n - 1][x as int],
            threshold,
        )
    }
}

/// One column of the scan: all templates are offered, then the strongest
/// match is committed if it lies a full digit width back.
pub open spec fn step(
    s: Scan,
    scores: Seq<Seq<Score>>,
    x: nat,
    digit_width: nat,
    threshold: Score,
) -> Scan {
    let best = offer_column(s.best, scores, x, scores.len(), threshold);
    match best {
        Some(c) => if x >= c.pos + digit_width {
            Scan { emitted: s.emitted.push(c), best: None }
        } else {
            Scan { emitted: s.emitted, best }
        },
        None => Scan { emitted: s.emitted, best },
    }
}

/// The state after the first `n` columns.
pub open spec fn scan(scores: Seq<Seq<Score>>, n: nat, digit_width: nat, threshold: Score) -> Scan
    decreases n,
{
    if n == 0 {
        Scan { emitted: Seq::empty(), best: None }
    } else {
        step(
            scan(scores, (n - 1) as nat, digit_width, threshold),
            scores,
            (n - 1) as nat,
            digit_width,
            threshold,
        )
    }
}

/// What a scan over all columns reports: everything committed on the way,
/// and the match still held at the end.
pub open spec fn located(scores: Seq<Seq<Score>>, digit_width: nat, threshold: Score) -> Seq<
    DigitPos,
> {
    let end = scan(scores, scan_len(scores), digit_width, threshold);
    match end.best {
        Some(c) => end.emitted.push(c),
        None => end.emitted,
    }
}

/// `d` names a template and a column, carries the score found there, and
/// that score reaches the threshold and is not 0.
pub open spec fn genuine(scores: Seq<Seq<Score>>, d: DigitPos, threshold: Score) -> bool {
    &&& d.digit < scores.len()
    &&& d.pos < scan_len(scores)
    &&& d.pos < scores[d.digit as int].len()
    &&& scores[d.digit as int][d.pos as int] == d.score
    &&& d.score >= threshold
    &&& d.score > 0
}

/// No template has at column `x` a score that reaches the threshold and
/// beats `d`.
pub open spec fn unbeaten_at(
    scores: Seq<Seq<Score>>,
    d: DigitPos,
    x: int,
    threshold: Score,
) -> bool {
    forall|t: int|
        0 <= t < scores.len() ==> (#[trigger] scores[t])[x] < threshold || scores[t][x] <= d.score
}

/// The count of scanned columns is within every template's scores.
pub proof fn lemma_scan_len_is_shortest(scores: Seq<Seq<Score>>, t: int)
    requires
        0 <= t < scores.len(),
    ensures
        scan_len(scores) <= scores[t].len(),
{
    lemma_shortest(scores, scores.len(), t);
}

proof fn lemma_shortest(scores: Seq<Seq<Score>>, n: nat, t: int)
    requires
        0 <= t < n,
    ensures
        shortest(scores, n) <= scores[t].len(),
    decreases n,
{
    if n > 1 && t < n - 1 {
        lemma_shortest(scores, (n - 1) as nat, t);
    }
}

/// What offering a column does: the match held afterwards is the one held
/// before or one found in this column that beats it, and no score of the
/// column that reaches the threshold beats the one held afterwards.
proof fn lemma_offer_column(
    best: Option<DigitPos>,
    scores: Seq<Seq<Score>>,
    x: nat,
    n: nat,
    threshold: Score,
)
    requires
        n <= scores.len() <= usize::MAX,
        x < scan_len(scores) <= usize::MAX,
    ensures
        ({
            let after = offer_column(best, scores, x, n, threshold);
            &&& after == best || (after matches Some(c) && c.pos == x && c.digit < n && genuine(
                scores,
                c,
                threshold,
            ) && c.score > best_score(best))
            &&& best_score(after) >= best_score(best)
            &&& forall|t: int|
                0 <= t < n ==> (#[trigger] scores[t])[x as int] < threshold || scores[t][x as int]
                    <= best_score(after)
        }),
    decreases n,
{
    if n > 0 {
        lemma_offer_column(best, scores, x, (n - 1) as nat, threshold);
        lemma_scan_len_is_shortest(scores, n - 1);
    }
}

/// What holds of a scan after `n` columns.
spec fn scan_inv(
    s: Scan,
    scores: Seq<Seq<Score>>,
    n: nat,
    digit_width: nat,
    threshold: Score,
) -> bool {
    &&& forall|i: int|
        0 <= i < s.emitted.len() ==> {
            let d = #[trigger] s.emitted[i];
            &&& genuine(scores, d, threshold)
            &&& d.pos + digit_width < n
            &&& forall|x: int|
                d.pos <= x <= d.pos + digit_width ==> #[trigger] unbeaten_at(
                    scores,
                    d,
                    x,
                    threshold,
                )
        }
    &&& forall|i: int|
        0 <= i && i + 1 < s.emitted.len() ==> (#[trigger] s.emitted[i]).pos + digit_width
            < s.emitted[i + 1].pos
    &&& s.best matches Some(c) ==> {
        &&& genuine(scores, c, threshold)
        &&& c.pos < n
        &&& forall|x: int| c.pos <= x < n ==> #[trigger] unbeaten_at(scores, c, x, threshold)
        &&& s.emitted.len() > 0 ==> s.emitted.last().pos + digit_width < c.pos
    }
}

proof fn lemma_scan_inv(scores: Seq<Seq<Score>>, n: nat, digit_width: nat, threshold: Score)
    requires
        scores.len() <= usize::MAX,
        n <= scan_len(scores) <= usize::MAX,
    ensures
        scan_inv(scan(scores, n, digit_width, threshold), scores, n, digit_width, threshold),
    decreases n,
{
    if n > 0 {
        let x = (n - 1) as nat;
        let before = scan(scores, x, digit_width, threshold);
        let after = scan(scores, n, digit_width, threshold);
        lemma_scan_inv(scores, x, digit_width, threshold);
        lemma_offer_column(before.best, scores, x, scores.len(), threshold);
        let best = offer_column(before.best, scores, x, scores.len(), threshold);
        assert(after == step(before, scores, x, digit_width, threshold));
        if let Some(c) = best {
            assert(unbeaten_at(scores, c, x as int, threshold));
            assert forall|k: int| c.pos <= k < n implies #[trigger] unbeaten_at(
                scores,
                c,
                k,
                threshold,
            ) by {
                if k < x {
                    assert(best == before.best);
                }
            }
            if x >= c.pos + digit_width {
                assert(after.emitted == before.emitted.push(c));
                assert forall|i: int| 0 <= i < after.emitted.len() implies {
                    let d = #[trigger] after.emitted[i];
                    &&& genuine(scores, d, threshold)
                    &&& d.pos + digit_width < n
                    &&& forall|k: int|
                        d.pos <= k <= d.pos + digit_width ==> #[trigger] unbeaten_at(
                            scores,
                            d,
                            k,
                            threshold,
                        )
                } by {
                    if i < before.emitted.len() {
                        assert(after.emitted[i] == before.emitted[i]);
                    }
                }
                assert forall|i: int| 0 <= i && i + 1 < after.emitted.len() implies (
                #[trigger] after.emitted[i]).pos + digit_width < after.emitted[i + 1].pos by {
                    if i + 1 < before.emitted.len() {
                        assert(after.emitted[i] == before.emitted[i]);
                        assert(after.emitted[i + 1] == before.emitted[i + 1]);
                    } else {
                        assert(after.emitted[i] == before.emitted.last());
                    }
                }
            } else {
                assert(after.emitted == before.emitted);
            }
        }
    }
}

/// Every reported digit names a template and a scanned column, carries the
/// score that the template has there, and that score reaches the threshold
/// and is not 0.
pub proof fn lemma_located_are_genuine(
    scores: Seq<Seq<Score>>,
    digit_width: nat,
    threshold: Score,
    i: int,
)
    requires
        scores.len() <= usize::MAX,
        scan_len(scores) <= usize::MAX,
        0 <= i < located(scores, digit_width, threshold).len(),
    ensures
        genuine(scores, located(scores, digit_width, threshold)[i], threshold),
{
    lemma_scan_inv(scores, scan_len(scores), digit_width, threshold);
    let end = scan(scores, scan_len(scores), digit_width, threshold);
    if i < end.emitted.len() {
        assert(located(scores, digit_width, threshold)[i] == end.emitted[i]);
    }
}

/// Digits are reported from left to right, each more than a digit width
/// after the one before.
pub proof fn lemma_located_are_spaced(
    scores: Seq<Seq<Score>>,
    digit_width: nat,
    threshold: Score,
    i: int,
    j: int,
)
    requires
        scores.len() <= usize::MAX,
        scan_len(scores) <= usize::MAX,
        0 <= i < j < located(scores, digit_width, threshold).len(),
    ensures
        located(scores, digit_width, threshold)[i].pos + digit_width < located(
            scores,
            digit_width,
            threshold,
        )[j].pos,
    decreases j - i,
{
    lemma_scan_inv(scores, scan_len(scores), digit_width, threshold);
    let end = scan(scores, scan_len(scores), digit_width, threshold);
    let all = located(scores, digit_width, threshold);
    if j - 1 < end.emitted.len() {
        assert(all[j - 1] == end.emitted[j - 1]);
    }
    if j < end.emitted.len() {
        assert(all[j] == end.emitted[j]);
    }
    assert(all[j - 1].pos + digit_width < all[j].pos);
    if i < j - 1 {
        lemma_located_are_spaced(scores, digit_width, threshold, i, j - 1);
    }
}

/// A reported digit is the strongest match within its own width: from its
/// column on, for a digit width or to the end of the scan, no template has a
/// score that reaches the threshold and beats it.
pub proof fn lemma_located_are_unbeaten(
    scores: Seq<Seq<Score>>,
    digit_width: nat,
    threshold: Score,
    i: int,
    x: int,
)
    requires
        scores.len() <= usize::MAX,
        scan_len(scores) <= usize::MAX,
        0 <= i < located(scores, digit_width, threshold).len(),
        located(scores, digit_width, threshold)[i].pos <= x <= located(
            scores,
            digit_width,
            threshold,
        )[i].pos + digit_width,
        x < scan_len(scores),
    ensures
        unbeaten_at(scores, located(scores, digit_width, threshold)[i], x, threshold),
{
    lemma_scan_inv(scores, scan_len(scores), digit_width, threshold);
    let end = scan(scores, scan_len(scores), digit_width, threshold);
    if i < end.emitted.len() {
        assert(located(scores, digit_width, threshold)[i] == end.emitted[i]);
    }
}

/// The number of columns for which every template has a score; 0 without
/// templates.
pub fn scan_length(scores: &Vec<Vec<Score>>) -> (n: usize)
    ensures
        n == scan_len(columns(scores)),
{
    if scores.len() == 0 {
        return 0;
    }
    let mut n: usize = scores[0].len();
    let mut t: usize = 1;
    while t < scores.len()
        invariant
            1 <= t <= scores.len(),
            n == shortest(columns(scores), t as nat),
        decreases scores.len() - t,
    {
        if scores[t].len() < n {
            n = scores[t].len();
        }
        t = t + 1;
    }
    n
}

/// Scans the score tables from left to right and reports the digits found.
///
/// `scores` holds one table per template, `digit_width` is the width of the
/// widest template, and `threshold` the score below which nothing counts.
pub fn locate_digits(scores: &Vec<Vec<Score>>, digit_width: u32, threshold: Score) -> (out: Vec<
    DigitPos,
>)
    ensures
        out@ == located(columns(scores), digit_width as nat, threshold),
{
    let ghost table = columns(scores);
    let len: usize = scan_length(scores);
    let mut out: Vec<DigitPos> = Vec::new();
    let mut best: Option<DigitPos> = None;
    let mut x: usize = 0;
    while x < len
        invariant
            table == columns(scores),
            len == scan_len(table),
            x <= len,
            (Scan { emitted: out@, best }) == scan(table, x as nat, digit_width as nat, threshold),
            best matches Some(c) ==> c.pos < x,
        decreases len - x,
    {
        let ghost before = best;
        let mut t: usize = 0;
        while t < scores.len()
            invariant
                table == columns(scores),
                len == scan_len(table),
                x < len,
                t <= scores.len(),
                best == offer_column(before, table, x as nat, t as nat, threshold),
                best matches Some(c) ==> c.pos <= x,
            decreases scores.len() - t,
        {
            proof {
                lemma_scan_len_is_shortest(table, t as int);
            }
            let s: Score = scores[t][x];
            if s >= threshold {
                let beaten: bool = match best {
                    Some(c) => s > c.score,
                    None => s > 0,
                };
                if beaten {
                    best = Some(DigitPos { digit: t, score: s, pos: x });
                }
            }
            t = t + 1;
        }
        match best {
            Some(c) => {
                if x - c.pos >= digit_width as usize {
                    out.push(c);
                    best = None;
                }
            },
            None => {},
        }
        x = x + 1;
    }
    match best {
        Some(c) => {
            out.push(c);
        },
        None => {},
    }
    out
}

} // verus!
