use crate::neighbors::{
    corner_count, exposed, index_set, side_count, GameTileComputations, GameTileExistHashMap,
};
use crate::tile::{segment_list, GameMapSegment, GameMapTile};
use vstd::prelude::*;

verus! {

/// How many of the eight positions around `(x, y)` are in the set.
pub open spec fn neighbor_count(walls: Set<(int, int)>, x: int, y: int) -> int {
    side_count(walls, x, y) + corner_count(walls, x, y)
}

/// The test of a boundary tile: at least one of its eight neighbors is free.
pub open spec fn on_boundary(walls: Set<(int, int)>) -> spec_fn((int, int)) -> bool {
    |p: (int, int)| neighbor_count(walls, p.0, p.1) < 8
}

/// The test of a lone tile: at most two of its eight neighbors are walls.
pub open spec fn is_lone(walls: Set<(int, int)>) -> spec_fn((int, int)) -> bool {
    |p: (int, int)| neighbor_count(walls, p.0, p.1) <= 2
}

/// The segment that covers the single position `p`.
pub open spec fn point_segment(p: (int, int)) -> (int, int, int, int) {
    (p.0, p.1, p.0, p.1)
}

/// The boundary tiles among `tiles`, in the order of `tiles`.
pub open spec fn boundary_tiles(walls: Set<(int, int)>, tiles: Seq<(int, int)>) -> Seq<(int, int)> {
    tiles.filter(on_boundary(walls))
}

/// One point segment for each lone tile among `tiles`, in the order of `tiles`.
pub open spec fn lone_segments(walls: Set<(int, int)>, tiles: Seq<(int, int)>) -> Seq<
    (int, int, int, int),
> {
    tiles.filter(is_lone(walls)).map_values(|p: (int, int)| point_segment(p))
}

/// The cell at place `t` of a scan line. A horizontal line is the row
/// `y == fixed`, a vertical line the column `x == fixed`.
pub open spec fn line_cell(horizontal: bool, fixed: int, t: int) -> (int, int) {
    if horizontal {
        (t, fixed)
    } else {
        (fixed, t)
    }
}

/// Whether the cell at place `t` of the line is a wall.
pub open spec fn line_wall(walls: Set<(int, int)>, horizontal: bool, fixed: int, t: int) -> bool {
    walls.contains(line_cell(horizontal, fixed, t))
}

/// Whether the cell at place `t` of the line is an exposed wall.
pub open spec fn line_exposed(walls: Set<(int, int)>, horizontal: bool, fixed: int, t: int) -> bool {
    exposed(walls, line_cell(horizontal, fixed, t).0, line_cell(horizontal, fixed, t).1)
}

/// The segment from place `a` to place `b` of the line.
pub open spec fn line_segment(horizontal: bool, fixed: int, a: int, b: int) -> (
    int,
    int,
    int,
    int,
) {
    if horizontal {
        (a, fixed, b, fixed)
    } else {
        (fixed, a, fixed, b)
    }
}

/// The first place of the unbroken stretch of exposed cells that reaches up
/// to place `t`, looking back no further than `lo`.
pub open spec fn run_start(
    walls: Set<(int, int)>,
    horizontal: bool,
    fixed: int,
    lo: int,
    t: int,
) -> int
    decreases t - lo,
{
    if lo < t && line_exposed(walls, horizontal, fixed, t - 1) {
        run_start(walls, horizontal, fixed, lo, t - 1)
    } else {
        t
    }
}

/// Whether a run is open when the scan, begun at `lo`, arrives at place `t`:
/// the cell before `t` is exposed, and the stretch of exposed cells that it
/// ends has a wall right after its first cell.
pub open spec fn run_open(
    walls: Set<(int, int)>,
    horizontal: bool,
    fixed: int,
    lo: int,
    t: int,
) -> bool {
    &&& lo < t
    &&& line_exposed(walls, horizontal, fixed, t - 1)
    &&& line_wall(walls, horizontal, fixed, run_start(walls, horizontal, fixed, lo, t - 1) + 1)
}

/// The segments that a scan of the places `lo ..= hi` of one line gives: one
/// for each open run that meets a cell which is not exposed. A run that is
/// still open after place `hi` gives none.
pub open spec fn line_segments(
    walls: Set<(int, int)>,
    horizontal: bool,
    fixed: int,
    lo: int,
    hi: int,
) -> Seq<(int, int, int, int)>
    decreases hi - lo + 1,
{
    if hi < lo {
        Seq::empty()
    } else {
        let before = line_segments(walls, horizontal, fixed, lo, hi - 1);
        if run_open(walls, horizontal, fixed, lo, hi) && !line_exposed(
            walls,
            horizontal,
            fixed,
            hi,
        ) {
            before.push(
                line_segment(
                    horizontal,
                    fixed,
                    run_start(walls, horizontal, fixed, lo, hi - 1),
                    hi - 1,
                ),
            )
        } else {
            before
        }
    }
}

/// The segments of the lines `first ..= last`, line after line, each scanned
/// over the places `lo ..= hi`.
pub open spec fn pass_segments(
    walls: Set<(int, int)>,
    horizontal: bool,
    first: int,
    last: int,
    lo: int,
    hi: int,
) -> Seq<(int, int, int, int)>
    decreases last - first + 1,
{
    if last < first {
        Seq::empty()
    } else {
        pass_segments(walls, horizontal, first, last - 1, lo, hi) + line_segments(
            walls,
            horizontal,
            last,
            lo,
            hi,
        )
    }
}

/// The stretch that `run_start` names lies between `lo` and `t`, holds
/// exposed cells only, and cannot be extended backwards.
pub proof fn lemma_run_start(walls: Set<(int, int)>, horizontal: bool, fixed: int, lo: int, t: int)
    requires
        lo <= t,
    ensures
        lo <= run_start(walls, horizontal, fixed, lo, t) <= t,
        forall|u: int|
            run_start(walls, horizontal, fixed, lo, t) <= u < t ==> #[trigger] line_exposed(
                walls,
                horizontal,
                fixed,
                u,
            ),
        run_start(walls, horizontal, fixed, lo, t) == lo || !line_exposed(
            walls,
            horizontal,
            fixed,
            run_start(walls, horizontal, fixed, lo, t) - 1,
        ),
    decreases t - lo,
{
    if lo < t && line_exposed(walls, horizontal, fixed, t - 1) {
        lemma_run_start(walls, horizontal, fixed, lo, t - 1);
    }
}

/// How the scan's state moves on over place `t`: whether a run is open after
/// `t`, given whether one was open before it.
pub proof fn lemma_run_step(walls: Set<(int, int)>, horizontal: bool, fixed: int, lo: int, t: int)
    requires
        lo <= t,
    ensures
        run_open(walls, horizontal, fixed, lo, t + 1) == if run_open(
            walls,
            horizontal,
            fixed,
            lo,
            t,
        ) {
            line_exposed(walls, horizontal, fixed, t)
        } else {
            line_exposed(walls, horizontal, fixed, t) && line_wall(walls, horizontal, fixed, t + 1)
        },
        run_open(walls, horizontal, fixed, lo, t) && line_exposed(walls, horizontal, fixed, t)
            ==> run_start(walls, horizontal, fixed, lo, t) == run_start(
            walls,
            horizontal,
            fixed,
            lo,
            t - 1,
        ),
        !run_open(walls, horizontal, fixed, lo, t) && run_open(walls, horizontal, fixed, lo, t + 1)
            ==> run_start(walls, horizontal, fixed, lo, t) == t,
{
    let before = run_start(walls, horizontal, fixed, lo, t - 1);
    let here = run_start(walls, horizontal, fixed, lo, t);
    assert(here == if lo < t && line_exposed(walls, horizontal, fixed, t - 1) {
        before
    } else {
        t
    });
    if lo < t && line_exposed(walls, horizontal, fixed, t - 1) && line_exposed(
        walls,
        horizontal,
        fixed,
        t,
    ) {
        // The stretch that ends at `t - 1` goes on to `t`, so the cell after
        // its first cell is an exposed wall too.
        lemma_run_start(walls, horizontal, fixed, lo, t - 1);
        if before + 1 < t - 1 {
            assert(line_exposed(walls, horizontal, fixed, before + 1));
        }
        assert(line_wall(walls, horizontal, fixed, before + 1));
    }
}

/// A well-formed segment: its first end is not beyond its second, and it is
/// level, upright or a single point.
pub open spec fn valid_segment(s: (int, int, int, int)) -> bool {
    s.0 <= s.2 && s.1 <= s.3 && (s.0 == s.2 || s.1 == s.3)
}

/// Whether the places `a ..= b` of the line form a run that a scan of the
/// places `lo ..= hi` reports: a stretch of exposed walls that cannot be
/// extended at either end, that ends before place `hi`, and whose first
/// cell has a wall right after it.
pub open spec fn is_line_run(
    walls: Set<(int, int)>,
    horizontal: bool,
    fixed: int,
    lo: int,
    hi: int,
    a: int,
    b: int,
) -> bool {
    &&& lo <= a <= b < hi
    &&& forall|u: int| a <= u <= b ==> #[trigger] line_exposed(walls, horizontal, fixed, u)
    &&& !line_exposed(walls, horizontal, fixed, b + 1)
    &&& (a == lo || !line_exposed(walls, horizontal, fixed, a - 1))
    &&& line_wall(walls, horizontal, fixed, a + 1)
}

/// A stretch of exposed cells that cannot be extended backwards starts
/// where `run_start` says.
pub proof fn lemma_run_start_of_stretch(
    walls: Set<(int, int)>,
    horizontal: bool,
    fixed: int,
    lo: int,
    a: int,
    t: int,
)
    requires
        lo <= a <= t,
        forall|u: int| a <= u < t ==> #[trigger] line_exposed(walls, horizontal, fixed, u),
        a == lo || !line_exposed(walls, horizontal, fixed, a - 1),
    ensures
        run_start(walls, horizontal, fixed, lo, t) == a,
    decreases t - a,
{
    if a < t {
        assert(line_exposed(walls, horizontal, fixed, t - 1));
        lemma_run_start_of_stretch(walls, horizontal, fixed, lo, a, t - 1);
    }
}

/// Whether the segment spans a run that a scan of the places `lo ..= hi` of
/// the line reports.
pub open spec fn spans_line_run(
    walls: Set<(int, int)>,
    horizontal: bool,
    fixed: int,
    lo: int,
    hi: int,
    s: (int, int, int, int),
) -> bool {
    exists|a: int, b: int|
        #![trigger line_segment(horizontal, fixed, a, b)]
        is_line_run(walls, horizontal, fixed, lo, hi, a, b) && s == line_segment(
            horizontal,
            fixed,
            a,
            b,
        )
}

/// Whether the segment spans a run of one of the lines `first ..= last`.
pub open spec fn spans_pass_run(
    walls: Set<(int, int)>,
    horizontal: bool,
    first: int,
    last: int,
    lo: int,
    hi: int,
    s: (int, int, int, int),
) -> bool {
    exists|fixed: int|
        first <= fixed <= last && #[trigger] spans_line_run(walls, horizontal, fixed, lo, hi, s)
}

/// The scan of a line reports the runs of the line and nothing else: a
/// segment is among `line_segments` exactly if it spans a run.
pub proof fn lemma_line_segments_are_runs(
    walls: Set<(int, int)>,
    horizontal: bool,
    fixed: int,
    lo: int,
    hi: int,
)
    ensures
        forall|s: (int, int, int, int)|
            #![trigger line_segments(walls, horizontal, fixed, lo, hi).contains(s)]
            #![trigger spans_line_run(walls, horizontal, fixed, lo, hi, s)]
            line_segments(walls, horizontal, fixed, lo, hi).contains(s) <==> spans_line_run(
                walls,
                horizontal,
                fixed,
                lo,
                hi,
                s,
            ),
    decreases hi - lo + 1,
{
    let all = line_segments(walls, horizontal, fixed, lo, hi);
    if hi >= lo {
        let before = line_segments(walls, horizontal, fixed, lo, hi - 1);
        let closes = run_open(walls, horizontal, fixed, lo, hi) && !line_exposed(
            walls,
            horizontal,
            fixed,
            hi,
        );
        let first = run_start(walls, horizontal, fixed, lo, hi - 1);
        let closing = line_segment(horizontal, fixed, first, hi - 1);
        lemma_line_segments_are_runs(walls, horizontal, fixed, lo, hi - 1);
        if closes {
            lemma_run_start(walls, horizontal, fixed, lo, hi - 1);
            assert(is_line_run(walls, horizontal, fixed, lo, hi, first, hi - 1));
            assert(all[all.len() - 1] == closing);
        }
        assert forall|s: (int, int, int, int)| all.contains(s) implies spans_line_run(
            walls,
            horizontal,
            fixed,
            lo,
            hi,
            s,
        ) by {
            let i = choose|i: int| 0 <= i < all.len() && all[i] == s;
            if i < before.len() {
                assert(before[i] == s);
                assert(before.contains(s));
                let (a, b) = choose|a: int, b: int|
                    #![trigger line_segment(horizontal, fixed, a, b)]
                    is_line_run(walls, horizontal, fixed, lo, hi - 1, a, b) && s == line_segment(
                        horizontal,
                        fixed,
                        a,
                        b,
                    );
                assert(is_line_run(walls, horizontal, fixed, lo, hi, a, b));
            } else {
                assert(s == line_segment(horizontal, fixed, first, hi - 1));
            }
        }
        assert forall|s: (int, int, int, int)|
            spans_line_run(walls, horizontal, fixed, lo, hi, s) implies all.contains(s) by {
            let (a, b) = choose|a: int, b: int|
                #![trigger line_segment(horizontal, fixed, a, b)]
                is_line_run(walls, horizontal, fixed, lo, hi, a, b) && s == line_segment(
                    horizontal,
                    fixed,
                    a,
                    b,
                );
            if b + 1 < hi {
                assert(is_line_run(walls, horizontal, fixed, lo, hi - 1, a, b));
                assert(spans_line_run(walls, horizontal, fixed, lo, hi - 1, s));
                let i = choose|i: int| 0 <= i < before.len() && before[i] == s;
                assert(all[i] == s);
            } else {
                assert(line_exposed(walls, horizontal, fixed, b));
                lemma_run_start_of_stretch(walls, horizontal, fixed, lo, a, b);
                assert(closes);
            }
        }
    } else {
        assert forall|s: (int, int, int, int)| all.contains(s) implies false by {
            let i = choose|i: int| 0 <= i < all.len() && all[i] == s;
        }
    }
}

/// A pass reports, for each of its lines, the runs of that line and nothing
/// else.
pub proof fn lemma_pass_segments_are_runs(
    walls: Set<(int, int)>,
    horizontal: bool,
    first: int,
    last: int,
    lo: int,
    hi: int,
)
    ensures
        forall|s: (int, int, int, int)|
            #![trigger pass_segments(walls, horizontal, first, last, lo, hi).contains(s)]
            #![trigger spans_pass_run(walls, horizontal, first, last, lo, hi, s)]
            pass_segments(walls, horizontal, first, last, lo, hi).contains(s) <==> spans_pass_run(
                walls,
                horizontal,
                first,
                last,
                lo,
                hi,
                s,
            ),
    decreases last - first + 1,
{
    let all = pass_segments(walls, horizontal, first, last, lo, hi);
    if last >= first {
        let before = pass_segments(walls, horizontal, first, last - 1, lo, hi);
        let line = line_segments(walls, horizontal, last, lo, hi);
        lemma_pass_segments_are_runs(walls, horizontal, first, last - 1, lo, hi);
        lemma_line_segments_are_runs(walls, horizontal, last, lo, hi);
        assert forall|s: (int, int, int, int)| all.contains(s) implies spans_pass_run(
            walls,
            horizontal,
            first,
            last,
            lo,
            hi,
            s,
        ) by {
            let i = choose|i: int| 0 <= i < all.len() && all[i] == s;
            if i < before.len() {
                assert(before[i] == s);
                assert(before.contains(s));
                let fixed = choose|fixed: int|
                    first <= fixed <= last - 1 && #[trigger] spans_line_run(
                        walls,
                        horizontal,
                        fixed,
                        lo,
                        hi,
                        s,
                    );
                assert(spans_line_run(walls, horizontal, fixed, lo, hi, s));
            } else {
                assert(line[i - before.len()] == s);
                assert(line.contains(s));
                assert(spans_line_run(walls, horizontal, last, lo, hi, s));
            }
        }
        assert forall|s: (int, int, int, int)|
            spans_pass_run(walls, horizontal, first, last, lo, hi, s) implies all.contains(s) by {
            let fixed = choose|fixed: int|
                first <= fixed <= last && #[trigger] spans_line_run(
                    walls,
                    horizontal,
                    fixed,
                    lo,
                    hi,
                    s,
                );
            if fixed < last {
                assert(spans_pass_run(walls, horizontal, first, last - 1, lo, hi, s));
                let i = choose|i: int| 0 <= i < before.len() && before[i] == s;
                assert(all[i] == s);
            } else {
                let k = choose|k: int| 0 <= k < line.len() && line[k] == s;
                assert(all[before.len() + k] == s);
            }
        }
    } else {
        assert forall|s: (int, int, int, int)| all.contains(s) implies false by {
            let i = choose|i: int| 0 <= i < all.len() && all[i] == s;
        }
    }
}

/// Scans the lines `first ..= last` one after the other, each over the places
/// `lo ..= hi`, and appends the segments of the runs found to `segments`.
///
/// On a line, a run opens at an exposed wall whose next cell is a wall, and
/// goes on over exposed walls. The first cell that is not an exposed wall
/// closes it, and the segment from the run's first cell to its last is
/// appended. A run that reaches place `hi` is dropped.
pub fn scan_pass(
    hash_map: &GameTileExistHashMap,
    horizontal: bool,
    first: i64,
    last: i64,
    lo: i64,
    hi: i64,
    segments: &mut Vec<GameMapSegment>,
)
    ensures
        segment_list(final(segments)@) == segment_list(old(segments)@) + pass_segments(
            index_set(hash_map@),
            horizontal,
            first as int,
            last as int,
            lo as int,
            hi as int,
        ),
{
    let ghost walls = index_set(hash_map@);
    let ghost given = segment_list(segments@);
    let mut line: i128 = first as i128;
    while line <= last as i128
        invariant
            first <= line <= last + 1 || (last < first && line == first),
            walls == index_set(hash_map@),
            segment_list(segments@) == given + pass_segments(
                walls,
                horizontal,
                first as int,
                line - 1,
                lo as int,
                hi as int,
            ),
        decreases last + 1 - line,
    {
        let fixed: i64 = line as i64;
        let ghost done = segment_list(segments@);
        let mut tracking = false;
        let mut start: i64 = 0;
        let mut place: i128 = lo as i128;
        while place <= hi as i128
            invariant
                lo <= place <= hi + 1 || (hi < lo && place == lo),
                walls == index_set(hash_map@),
                segment_list(segments@) == done + line_segments(
                    walls,
                    horizontal,
                    fixed as int,
                    lo as int,
                    place - 1,
                ),
                tracking == run_open(walls, horizontal, fixed as int, lo as int, place as int),
                tracking ==> start == run_start(
                    walls,
                    horizontal,
                    fixed as int,
                    lo as int,
                    place - 1,
                ),
            decreases hi + 1 - place,
        {
            let t: i64 = place as i64;
            let tile: GameMapTile = if horizontal {
                [t, fixed]
            } else {
                [fixed, t]
            };
            let (yes, begins) = if horizontal {
                GameTileComputations::get_segment_triggers(hash_map, &tile, 1, 0)
            } else {
                GameTileComputations::get_segment_triggers(hash_map, &tile, 0, 1)
            };
            proof {
                assert(yes == line_exposed(walls, horizontal, fixed as int, t as int));
                assert(begins == (yes && line_wall(walls, horizontal, fixed as int, t + 1)));
                lemma_run_step(walls, horizontal, fixed as int, lo as int, t as int);
            }
            if tracking {
                if !yes {
                    let ghost before = segment_list(segments@);
                    let segment: GameMapSegment = if horizontal {
                        [start, fixed, (place - 1) as i64, fixed]
                    } else {
                        [fixed, start, fixed, (place - 1) as i64]
                    };
                    segments.push(segment);
                    tracking = false;
                    proof {
                        assert(segment_list(segments@) =~= before.push(
                            line_segment(horizontal, fixed as int, start as int, t - 1),
                        ));
                    }
                }
            } else if begins {
                tracking = true;
                start = t;
            }
            place += 1;
        }
        proof {
            assert(line_segments(walls, horizontal, fixed as int, lo as int, place - 1)
                == line_segments(walls, horizontal, fixed as int, lo as int, hi as int)) by {
                if hi < lo {
                    assert(line_segments(walls, horizontal, fixed as int, lo as int, lo - 1)
                        =~= Seq::empty());
                    assert(line_segments(walls, horizontal, fixed as int, lo as int, hi as int)
                        =~= Seq::empty());
                }
            }
            assert(segment_list(segments@) =~= given + pass_segments(
                walls,
                horizontal,
                first as int,
                line as int,
                lo as int,
                hi as int,
            ));
        }
        line += 1;
    }
    proof {
        if last < first {
            assert(pass_segments(walls, horizontal, first as int, first - 1, lo as int, hi as int)
                =~= Seq::empty());
            assert(pass_segments(walls, horizontal, first as int, last as int, lo as int, hi as int)
                =~= Seq::empty());
        }
    }
}

} // verus!
