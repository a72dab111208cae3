//! Checking that a walkthrough references every collected chunk, and the
//! compact range notation used to report uncovered lines.

use vstd::prelude::*;
use crate::difft_json::LineEntry;
use crate::html::entry_pos;
use crate::items::min_u;
use crate::parse::{lines_pair, parse_chunk_indices, parse_indices, parse_lines_pair};
use crate::refs::{ref_view, DifftRef};
use crate::text::{chars_of, dec, push_char, push_dec_usize, str_eq};

verus! {

/// Consecutive positions grouped into `(start, end)` ranges: each position
/// extends the current range when it is at most one past its end, and
/// otherwise starts a new range.
pub open spec fn range_groups(ps: Seq<usize>) -> Seq<(int, int)>
    decreases ps.len(),
{
    if ps.len() == 0 {
        Seq::empty()
    } else if ps.len() == 1 {
        seq![(ps[0] as int, ps[0] as int)]
    } else {
        let g = range_groups(ps.drop_last());
        let p = ps.last() as int;
        if g.len() > 0 && p <= g.last().1 + 1 {
            g.update(g.len() - 1, (g.last().0, p))
        } else {
            g.push((p, p))
        }
    }
}

/// "5" for a single-position range, "5-10" otherwise.
pub open spec fn range_text(r: (int, int)) -> Seq<char> {
    if r.0 == r.1 {
        dec(r.0 as nat)
    } else {
        dec(r.0 as nat) + seq!['-'] + dec(r.1 as nat)
    }
}

/// The range texts joined by commas.
pub open spec fn join_ranges(g: Seq<(int, int)>) -> Seq<char>
    decreases g.len(),
{
    if g.len() == 0 {
        Seq::empty()
    } else if g.len() == 1 {
        range_text(g[0])
    } else {
        join_ranges(g.drop_last()) + seq![','] + range_text(g.last())
    }
}

proof fn lemma_groups_nonempty(ps: Seq<usize>)
    requires
        ps.len() > 0,
    ensures
        range_groups(ps).len() > 0,
        range_groups(ps).last().1 == ps.last() as int,
        range_groups(ps).len() == 1 ==> range_groups(ps)[0].0 == ps[0] as int,
        forall|k: int| 0 <= k < range_groups(ps).len() ==> (#[trigger] range_groups(ps)[k]).0 >= 0 && range_groups(ps)[k].1 >= 0,
    decreases ps.len(),
{
    if ps.len() > 1 {
        lemma_groups_nonempty(ps.drop_last());
    }
}

/// Whether `x` is one of the positions.
pub open spec fn is_position(ps: Seq<usize>, x: int) -> bool {
    exists|i: int| 0 <= i < ps.len() && ps[i] == x
}

/// Whether some group holds `x`.
pub open spec fn in_groups(g: Seq<(int, int)>, x: int) -> bool {
    exists|k: int| #[trigger] group_holds(g, k, x)
}

/// Whether group `k` holds position `x`.
pub open spec fn group_holds(g: Seq<(int, int)>, k: int, x: int) -> bool {
    0 <= k < g.len() && g[k].0 <= x <= g[k].1
}

/// For sorted positions the groups are the maximal runs of consecutive
/// positions: each group is a range, consecutive groups are separated by at
/// least one missing position, and a number lies in some group exactly when
/// it is one of the positions.
#[verifier::spinoff_prover]
#[verifier::rlimit(50)]
pub proof fn lemma_range_groups_runs(ps: Seq<usize>)
    requires
        forall|i: int, j: int| 0 <= i <= j < ps.len() ==> ps[i] <= ps[j],
    ensures
        forall|k: int| 0 <= k < range_groups(ps).len() ==> (#[trigger] range_groups(ps)[k]).0 <= range_groups(ps)[k].1,
        forall|k: int| 0 <= k < range_groups(ps).len() - 1 ==> (#[trigger] range_groups(ps)[k]).1 + 1 < range_groups(ps)[k + 1].0,
        forall|x: int| #![trigger is_position(ps, x)] #![trigger in_groups(range_groups(ps), x)]
            is_position(ps, x) <==> in_groups(range_groups(ps), x),
    decreases ps.len(),
{
    let g = range_groups(ps);
    if ps.len() == 1 {
        assert forall|x: int| is_position(ps, x)
            <==> in_groups(g, x) by {
            if is_position(ps, x) {
                assert(group_holds(g, 0, x));
            }
            if in_groups(g, x) {
                assert(ps[0] == x);
            }
        }
    } else if ps.len() > 1 {
        let q = ps.drop_last();
        assert forall|i: int, j: int| 0 <= i <= j < q.len() implies q[i] <= q[j] by {
            assert(q[i] == ps[i] && q[j] == ps[j]);
        }
        lemma_range_groups_runs(q);
        lemma_groups_nonempty(q);
        let g0 = range_groups(q);
        let p = ps.last() as int;
        let b = g0.last().1;
        assert(b == q.last() as int);
        assert(ps[ps.len() - 2] <= ps[ps.len() - 1]);
        assert(b <= p);
        if p <= b + 1 {
            assert(g == g0.update(g0.len() - 1, (g0.last().0, p)));
            assert forall|k: int| 0 <= k < g.len() - 1 implies (#[trigger] g[k]).1 + 1 < g[k + 1].0 by {
                assert(g[k] == g0[k]);
                if k + 1 < g.len() - 1 { assert(g[k + 1] == g0[k + 1]); }
            }
            assert forall|k: int| 0 <= k < g.len() implies (#[trigger] g[k]).0 <= g[k].1 by {
                if k < g.len() - 1 { assert(g[k] == g0[k]); }
            }
            assert forall|x: int| is_position(ps, x)
                <==> in_groups(g, x) by {
                if is_position(ps, x) {
                    let i = choose|i: int| 0 <= i < ps.len() && ps[i] == x;
                    if i == ps.len() - 1 {
                        assert(group_holds(g, g.len() - 1, x));
                    } else {
                        assert(q[i] == x);
                        assert(is_position(q, x));
                        assert(in_groups(g0, x));
                        let k = choose|k: int| #[trigger] group_holds(g0, k, x);
                        if k < g.len() - 1 {
                            assert(g[k] == g0[k]);
                        } else {
                            assert(g[k] == (g0.last().0, p));
                        }
                        assert(group_holds(g, k, x));
                    }
                }
                if in_groups(g, x) {
                    let k = choose|k: int| #[trigger] group_holds(g, k, x);
                    if k < g.len() - 1 {
                        assert(g[k] == g0[k]);
                        assert(group_holds(g0, k, x));
                        assert(in_groups(g0, x));
                        assert(is_position(q, x));
                        let i = choose|i: int| 0 <= i < q.len() && q[i] == x;
                        assert(ps[i] == x);
                    } else if x <= b {
                        assert(g[k] == (g0.last().0, p));
                        assert(group_holds(g0, k, x));
                        assert(in_groups(g0, x));
                        assert(is_position(q, x));
                        let i = choose|i: int| 0 <= i < q.len() && q[i] == x;
                        assert(ps[i] == x);
                    } else {
                        assert(ps[ps.len() - 1] == x);
                    }
                }
            }
        } else {
            assert(g == g0.push((p, p)));
            assert forall|k: int| 0 <= k < g.len() - 1 implies (#[trigger] g[k]).1 + 1 < g[k + 1].0 by {
                assert(g[k] == g0[k]);
                if k + 1 < g.len() - 1 { assert(g[k + 1] == g0[k + 1]); }
            }
            assert forall|k: int| 0 <= k < g.len() implies (#[trigger] g[k]).0 <= g[k].1 by {
                if k < g.len() - 1 { assert(g[k] == g0[k]); }
            }
            assert forall|x: int| is_position(ps, x)
                <==> in_groups(g, x) by {
                if is_position(ps, x) {
                    let i = choose|i: int| 0 <= i < ps.len() && ps[i] == x;
                    if i == ps.len() - 1 {
                        assert(group_holds(g, g.len() - 1, x));
                    } else {
                        assert(q[i] == x);
                        assert(is_position(q, x));
                        assert(in_groups(g0, x));
                        let k = choose|k: int| #[trigger] group_holds(g0, k, x);
                        assert(group_holds(g, k, x));
                    }
                }
                if in_groups(g, x) {
                    let k = choose|k: int| #[trigger] group_holds(g, k, x);
                    if k < g.len() - 1 {
                        assert(group_holds(g0, k, x));
                        assert(in_groups(g0, x));
                        assert(is_position(q, x));
                        let i = choose|i: int| 0 <= i < q.len() && q[i] == x;
                        assert(ps[i] == x);
                    } else {
                        assert(ps[ps.len() - 1] == x);
                    }
                }
            }
        }
    }
}

/// Append the text of range `(start, end)`.
fn push_range(out: &mut String, start: usize, end: usize)
    ensures
        final(out)@ == old(out)@ + range_text((start as int, end as int)),
{
    push_dec_usize(out, start);
    if start != end {
        push_char(out, '-');
        push_dec_usize(out, end);
    }
}

/// Format positions into compact range notation: "5-10,15,20-25".
pub fn format_ranges(positions: &[usize]) -> (res: String)
    requires
        forall|i: int| 0 <= i < positions@.len() ==> positions@[i] < usize::MAX,
    ensures
        res@ == join_ranges(range_groups(positions@)),
{
    if positions.len() == 0 {
        return String::new();
    }
    let ghost ps = positions@;
    let mut done = String::new();
    let mut any_done = false;
    let mut start = positions[0];
    let mut end = positions[0];
    let mut i: usize = 1;
    assert(ps.take(1) == seq![ps[0]]);
    while i < positions.len()
        invariant
            1 <= i <= ps.len(),
            ps == positions@,
            forall|k: int| 0 <= k < ps.len() ==> ps[k] < usize::MAX,
            range_groups(ps.take(i as int)).len() > 0,
            range_groups(ps.take(i as int)).last() == (start as int, end as int),
            any_done == (range_groups(ps.take(i as int)).len() > 1),
            done@ == join_ranges(range_groups(ps.take(i as int)).drop_last()),
        decreases ps.len() - i,
    {
        let p = positions[i];
        let ghost g = range_groups(ps.take(i as int));
        proof {
            assert(ps.take(i + 1).drop_last() == ps.take(i as int));
            assert(ps.take(i + 1).last() == p);
        }
        if p <= end + 1 {
            end = p;
            proof {
                let g2 = range_groups(ps.take(i + 1));
                assert(g2 == g.update(g.len() - 1, (g.last().0, p as int)));
                assert(g2.drop_last() =~= g.drop_last());
            }
        } else {
            if any_done {
                push_char(&mut done, ',');
            }
            push_range(&mut done, start, end);
            proof {
                let g2 = range_groups(ps.take(i + 1));
                assert(g2 == g.push((p as int, p as int)));
                assert(g2.drop_last() == g);
                if g.len() > 1 {
                    assert(join_ranges(g) == join_ranges(g.drop_last()) + seq![','] + range_text(g.last()));
                } else {
                    assert(g.drop_last().len() == 0);
                }
            }
            any_done = true;
            start = p;
            end = p;
        }
        i = i + 1;
    }
    proof { assert(ps.take(ps.len() as int) == ps); }
    let ghost g = range_groups(ps);
    let mut out = done;
    if any_done {
        push_char(&mut out, ',');
    }
    push_range(&mut out, start, end);
    proof {
        if g.len() > 1 {
            assert(join_ranges(g) == join_ranges(g.drop_last()) + seq![','] + range_text(g.last()));
        } else {
            assert(g.drop_last().len() == 0);
            assert(g == seq![g[0]]);
        }
    }
    out
}

/// Per-chunk data for line-level coverage checking.
pub struct ChunkMeta {
    /// Smallest new-side line (0-based) of the chunk, or `None` for a
    /// removed-only chunk.
    pub base_rhs: Option<usize>,
    /// Sorted distinct positions of the entries (new line, else old line).
    pub positions: Vec<usize>,
}

/// The chunks of one collected file.
pub struct FileChunks {
    pub path: String,
    pub metas: Vec<ChunkMeta>,
}

/// A chunk that the walkthrough does not cover: not referenced at all
/// (`uncovered_lines` is `None`), or referenced only with `lines=` ranges that
/// miss the listed lines (relative, 1-based).
pub struct Uncovered {
    pub file: String,
    pub chunk: usize,
    pub uncovered_lines: Option<String>,
}

/// The outcome of a coverage check.
pub struct CoverageReport {
    pub complete: bool,
    pub uncovered: Vec<Uncovered>,
    pub total_chunks: usize,
    pub referenced_chunks: usize,
}

/// Line arithmetic of a reference or of the report left `usize`.
#[derive(Debug, PartialEq, Eq, Structural)]
pub enum CoverageError {
    Overflow,
}

/// The smallest new line of the entries, if any.
pub open spec fn rhs_min_opt(es: Seq<LineEntry>) -> Option<usize>
    decreases es.len(),
{
    if es.len() == 0 {
        None
    } else {
        let p = rhs_min_opt(es.drop_last());
        match es.last().rhs {
            Some(r) => {
                let x = r.line_number as usize;
                match p { Some(b) => Some(min_u(b, x)), None => Some(x) }
            },
            None => p,
        }
    }
}

/// Strictly increasing.
pub open spec fn strictly_sorted(s: Seq<usize>) -> bool {
    forall|i: int, j: int| 0 <= i < j < s.len() ==> s[i] < s[j]
}

/// `m` describes the chunk `es`.
pub open spec fn meta_of(m: ChunkMeta, es: Seq<LineEntry>) -> bool {
    &&& m.base_rhs == rhs_min_opt(es)
    &&& strictly_sorted(m.positions@)
    &&& forall|x: usize| m.positions@.contains(x) <==> exists|j: int| 0 <= j < es.len() && entry_pos(#[trigger] es[j]) == Some(x)
}

/// The coverage data of a chunk: its smallest new line and the sorted distinct
/// positions of its entries.
pub fn chunk_meta(chunk: &[LineEntry]) -> (res: ChunkMeta)
    ensures
        meta_of(res, chunk@),
{
    let mut base: Option<usize> = None;
    let mut positions: Vec<usize> = Vec::new();
    let mut i: usize = 0;
    while i < chunk.len()
        invariant
            i <= chunk@.len(),
            base == rhs_min_opt(chunk@.take(i as int)),
            strictly_sorted(positions@),
            forall|x: usize| positions@.contains(x) <==> exists|j: int| 0 <= j < i && entry_pos(#[trigger] chunk@[j]) == Some(x),
        decreases chunk@.len() - i,
    {
        let e = &chunk[i];
        proof {
            assert(chunk@.take(i + 1).drop_last() == chunk@.take(i as int));
            assert(chunk@.take(i + 1).last() == *e);
        }
        match &e.rhs {
            Some(r) => {
                let x = r.line_number as usize;
                base = match base { Some(b) => Some(if b <= x { b } else { x }), None => Some(x) };
            },
            None => {},
        }
        let pos: Option<usize> = match &e.rhs {
            Some(r) => Some(r.line_number as usize),
            None => match &e.lhs { Some(l) => Some(l.line_number as usize), None => None },
        };
        let ghost before = positions@;
        match pos {
            Some(p) => {
                let mut k: usize = 0;
                while k < positions.len() && positions[k] < p
                    invariant
                        k <= positions@.len(),
                        forall|q: int| 0 <= q < k ==> positions@[q] < p,
                    decreases positions@.len() - k,
                {
                    k = k + 1;
                }
                if k < positions.len() && positions[k] == p {
                } else {
                    positions.insert(k, p);
                    proof {
                        assert forall|a: int, b: int| 0 <= a < b < positions@.len() implies positions@[a] < positions@[b] by {
                            if b < k { } else if b == k { assert(positions@[a] == before[a]); }
                            else if a < k { assert(positions@[b] == before[b - 1]); }
                            else if a == k { assert(positions@[b] == before[b - 1]); if k < before.len() { assert(before[k as int] >= p); } }
                            else { assert(positions@[a] == before[a - 1]); assert(positions@[b] == before[b - 1]); }
                        }
                    }
                }
                proof {
                    assert forall|x: usize| positions@.contains(x) <==> exists|j: int| 0 <= j < i + 1 && entry_pos(#[trigger] chunk@[j]) == Some(x) by {
                        if positions@.contains(x) {
                            let q = choose|q: int| 0 <= q < positions@.len() && positions@[q] == x;
                            if x != p {
                                if positions@.len() > before.len() {
                                    if q < k { assert(before[q] == x); assert(before.contains(x)); }
                                    else { assert(q > k); assert(before[q - 1] == x); assert(before.contains(x)); }
                                } else {
                                    assert(before.contains(x));
                                }
                            } else {
                                assert(entry_pos(chunk@[i as int]) == Some(x));
                            }
                        }
                        if exists|j: int| 0 <= j < i + 1 && entry_pos(#[trigger] chunk@[j]) == Some(x) {
                            let j = choose|j: int| 0 <= j < i + 1 && entry_pos(#[trigger] chunk@[j]) == Some(x);
                            if j < i {
                                assert(before.contains(x));
                                let q = choose|q: int| 0 <= q < before.len() && before[q] == x;
                                if positions@.len() > before.len() {
                                    if q < k { assert(positions@[q] == x); } else { assert(positions@[q + 1] == x); }
                                } else {
                                    assert(positions@[q] == x);
                                }
                            } else {
                                if positions@.len() > before.len() { assert(positions@[k as int] == p); } else { assert(positions@[k as int] == p); }
                            }
                        }
                    }
                }
            },
            None => {
                proof {
                    assert forall|x: usize| positions@.contains(x) <==> exists|j: int| 0 <= j < i + 1 && entry_pos(#[trigger] chunk@[j]) == Some(x) by {
                        if exists|j: int| 0 <= j < i + 1 && entry_pos(#[trigger] chunk@[j]) == Some(x) {
                            let j = choose|j: int| 0 <= j < i + 1 && entry_pos(#[trigger] chunk@[j]) == Some(x);
                            assert(j < i);
                        }
                    }
                }
            },
        }
        i = i + 1;
    }
    proof { assert(chunk@.take(chunk@.len() as int) == chunk@); }
    ChunkMeta { base_rhs: base, positions }
}

/// The view of a reference: (file, chunk selection, optional line range).
pub type RefV = (Seq<char>, Seq<char>, Option<Seq<char>>);

/// The first file with the given path.
pub open spec fn find_file(files: Seq<FileChunks>, path: Seq<char>) -> Option<int>
    decreases files.len(),
{
    if files.len() == 0 {
        None
    } else if files[0].path@ == path {
        Some(0)
    } else {
        match find_file(files.drop_first(), path) {
            Some(i) => Some(i + 1),
            None => None,
        }
    }
}

/// The smallest new line over the selected chunks, or `usize::MAX`.
pub open spec fn meta_base(metas: Seq<ChunkMeta>, idx: Seq<usize>) -> usize
    decreases idx.len(),
{
    if idx.len() == 0 {
        usize::MAX
    } else {
        let p = meta_base(metas, idx.drop_last());
        let ci = idx.last() as int;
        if ci < metas.len() {
            match metas[ci].base_rhs {
                Some(b) => min_u(p, b),
                None => p,
            }
        } else {
            p
        }
    }
}

/// The chunk indices a reference selects among `n` chunks.
pub open spec fn ref_indices(n: nat, r: RefV) -> Seq<usize> {
    parse_indices(r.1, n as usize)
}

/// The `lines=` range of a reference as absolute 0-based lines: relative
/// 1-based lines counted from the smallest new line of the selected chunks.
/// `None` without a range, with one that does not parse, or when the selected
/// chunks have no new line.
pub open spec fn abs_range(metas: Seq<ChunkMeta>, r: RefV) -> Option<(int, int)> {
    match r.2 {
        None => None,
        Some(l) => match lines_pair(l) {
            None => None,
            Some(p) => {
                let base = meta_base(metas, ref_indices(metas.len(), r));
                if base == usize::MAX { None } else { Some((base + p.0 - 1, base + p.1 - 1)) }
            },
        },
    }
}

/// The arithmetic of a reference's range stays within `usize`.
pub open spec fn range_fits(metas: Seq<ChunkMeta>, r: RefV) -> bool {
    match r.2 {
        None => true,
        Some(l) => match lines_pair(l) {
            None => true,
            Some(p) => {
                let base = meta_base(metas, ref_indices(metas.len(), r));
                base == usize::MAX || (1 <= base + p.0 <= usize::MAX && 1 <= base + p.1 <= usize::MAX)
            },
        },
    }
}

/// Reference `r` names chunk `c` of file `f`.
pub open spec fn ref_targets(files: Seq<FileChunks>, r: RefV, f: int, c: int) -> bool {
    &&& find_file(files, r.0) == Some(f)
    &&& 0 <= c < files[f].metas@.len()
    &&& ref_indices(files[f].metas@.len(), r).contains(c as usize)
}

/// Some reference names the chunk.
pub open spec fn is_refd(files: Seq<FileChunks>, rs: Seq<RefV>, f: int, c: int) -> bool {
    exists|k: int| 0 <= k < rs.len() && ref_targets(files, #[trigger] rs[k], f, c)
}

/// Some reference names the chunk without a line range.
pub open spec fn is_full(files: Seq<FileChunks>, rs: Seq<RefV>, f: int, c: int) -> bool {
    exists|k: int| 0 <= k < rs.len() && ref_targets(files, #[trigger] rs[k], f, c) && abs_range(files[f].metas@, rs[k]) is None
}

/// Whether an optional range holds `p`.
pub open spec fn in_range(r: Option<(int, int)>, p: int) -> bool {
    match r {
        Some(x) => x.0 <= p <= x.1,
        None => false,
    }
}

/// Some reference names the chunk with a line range holding `p`.
pub open spec fn covers(files: Seq<FileChunks>, rs: Seq<RefV>, f: int, c: int, p: int) -> bool {
    exists|k: int| 0 <= k < rs.len() && ref_targets(files, #[trigger] rs[k], f, c)
        && in_range(abs_range(files[f].metas@, rs[k]), p)
}

/// The positions of `ps` that no range covers, in order.
pub open spec fn missed(ps: Seq<usize>, files: Seq<FileChunks>, rs: Seq<RefV>, f: int, c: int) -> Seq<usize>
    decreases ps.len(),
{
    if ps.len() == 0 {
        Seq::empty()
    } else {
        let m = missed(ps.drop_last(), files, rs, f, c);
        if covers(files, rs, f, c, ps.last() as int) { m } else { m.push(ps.last()) }
    }
}

/// Absolute positions as relative 1-based lines from `base`.
pub open spec fn rel_lines(ps: Seq<usize>, base: usize) -> Seq<usize> {
    ps.map_values(|p: usize| (p - base + 1) as usize)
}

/// The relative lines fit: no position is before `base`, and each relative
/// line stays below `usize::MAX`.
pub open spec fn rel_fits(ps: Seq<usize>, base: usize) -> bool {
    forall|i: int| 0 <= i < ps.len() ==> base <= #[trigger] ps[i] && ps[i] - base + 1 < usize::MAX
}

/// The base of a chunk's relative lines.
pub open spec fn meta_rel_base(m: ChunkMeta) -> usize {
    match m.base_rhs { Some(b) => b, None => 0 }
}

/// The view of a report entry.
pub type UncV = (Seq<char>, usize, Option<Seq<char>>);

/// The report entry of chunk `c` of file `f`: unreferenced, or referenced only
/// with ranges that miss some positions (listed relative to the chunk).
pub open spec fn entry_for(files: Seq<FileChunks>, rs: Seq<RefV>, f: int, c: int) -> Option<UncV> {
    if !is_refd(files, rs, f, c) {
        Some((files[f].path@, c as usize, None))
    } else if is_full(files, rs, f, c) {
        None
    } else {
        let m = files[f].metas@[c];
        let ps = missed(m.positions@, files, rs, f, c);
        if ps.len() == 0 {
            None
        } else {
            Some((files[f].path@, c as usize, Some(join_ranges(range_groups(rel_lines(ps, meta_rel_base(m)))))))
        }
    }
}

/// The report entries of the first `k` chunks of file `f`.
pub open spec fn file_report(files: Seq<FileChunks>, rs: Seq<RefV>, f: int, k: int) -> Seq<UncV>
    decreases k,
{
    if k <= 0 {
        Seq::empty()
    } else {
        let r = file_report(files, rs, f, k - 1);
        match entry_for(files, rs, f, k - 1) {
            Some(e) => r.push(e),
            None => r,
        }
    }
}

/// The report entries of the first `n` files, file by file, chunk by chunk.
pub open spec fn report_upto(files: Seq<FileChunks>, rs: Seq<RefV>, n: int) -> Seq<UncV>
    decreases n,
{
    if n <= 0 {
        Seq::empty()
    } else {
        report_upto(files, rs, n - 1) + file_report(files, rs, n - 1, files[n - 1].metas@.len() as int)
    }
}

/// The number of referenced chunks among the first `k` of file `f`.
pub open spec fn refd_in_file(files: Seq<FileChunks>, rs: Seq<RefV>, f: int, k: int) -> nat
    decreases k,
{
    if k <= 0 { 0 } else { refd_in_file(files, rs, f, k - 1) + if is_refd(files, rs, f, k - 1) { 1nat } else { 0nat } }
}

/// The number of referenced chunks in the first `n` files.
pub open spec fn refd_upto(files: Seq<FileChunks>, rs: Seq<RefV>, n: int) -> nat
    decreases n,
{
    if n <= 0 { 0 } else { refd_upto(files, rs, n - 1) + refd_in_file(files, rs, n - 1, files[n - 1].metas@.len() as int) }
}

/// The number of chunks in the first `n` files.
pub open spec fn chunks_upto(files: Seq<FileChunks>, n: int) -> nat
    decreases n,
{
    if n <= 0 { 0 } else { chunks_upto(files, n - 1) + files[n - 1].metas@.len() }
}

/// Every reference's range arithmetic fits.
pub open spec fn refs_fit(files: Seq<FileChunks>, rs: Seq<RefV>) -> bool {
    forall|k: int| 0 <= k < rs.len() ==> (find_file(files, (#[trigger] rs[k]).0) matches Some(f)
        ==> range_fits(files[f].metas@, rs[k]))
}

/// Every relative line that the report lists fits.
pub open spec fn report_fits(files: Seq<FileChunks>, rs: Seq<RefV>) -> bool {
    forall|f: int, c: int| 0 <= f < files.len() && 0 <= c < files[f].metas@.len()
        && #[trigger] is_refd(files, rs, f, c) && !is_full(files, rs, f, c) ==> {
        let m = files[f].metas@[c];
        rel_fits(missed(m.positions@, files, rs, f, c), meta_rel_base(m))
    }
}

/// The view of a report entry.
pub open spec fn unc_view(u: Uncovered) -> UncV {
    (u.file@, u.chunk, match u.uncovered_lines { Some(l) => Some(l@), None => None })
}

proof fn lemma_find_file(files: Seq<FileChunks>, path: Seq<char>, i: int)
    requires
        0 <= i <= files.len(),
        forall|j: int| 0 <= j < i ==> (#[trigger] files[j]).path@ != path,
    ensures
        i < files.len() && files[i].path@ == path ==> find_file(files, path) == Some(i),
        i == files.len() ==> find_file(files, path) is None,
    decreases i,
{
    if i > 0 {
        let t = files.drop_first();
        assert forall|j: int| 0 <= j < i - 1 implies (#[trigger] t[j]).path@ != path by {
            assert(t[j] == files[j + 1]);
        }
        if i < files.len() { assert(t[i - 1] == files[i]); }
        lemma_find_file(t, path, i - 1);
        assert(files[0].path@ != path);
    } else if files.len() == 0 {
    }
}

/// The index of the first file with the given path.
fn find_file_exec(files: &Vec<FileChunks>, path: &str) -> (res: Option<usize>)
    ensures
        res matches Some(i) ==> find_file(files@, path@) == Some(i as int) && i < files@.len(),
        res is None ==> find_file(files@, path@) is None,
        match find_file(files@, path@) {
            Some(f) => res == Some(f as usize) && 0 <= f < files@.len(),
            None => res is None,
        },
{
    let mut i: usize = 0;
    while i < files.len()
        invariant
            i <= files@.len(),
            forall|j: int| 0 <= j < i ==> (#[trigger] files@[j]).path@ != path@,
        decreases files@.len() - i,
    {
        if str_eq(files[i].path.as_str(), path) {
            proof { lemma_find_file(files@, path@, i as int); }
            return Some(i);
        }
        i = i + 1;
    }
    proof { lemma_find_file(files@, path@, i as int); }
    None
}

/// The smallest new line over the selected chunks, or `usize::MAX`.
fn meta_base_exec(metas: &Vec<ChunkMeta>, idx: &Vec<usize>) -> (res: usize)
    ensures
        res == meta_base(metas@, idx@),
{
    let mut base = usize::MAX;
    let mut i: usize = 0;
    while i < idx.len()
        invariant
            i <= idx@.len(),
            base == meta_base(metas@, idx@.take(i as int)),
        decreases idx@.len() - i,
    {
        proof {
            assert(idx@.take(i + 1).drop_last() == idx@.take(i as int));
            assert(idx@.take(i + 1).last() == idx@[i as int]);
        }
        let ci = idx[i];
        if ci < metas.len() {
            match metas[ci].base_rhs {
                Some(b) => { if b < base { base = b; } },
                None => {},
            }
        }
        i = i + 1;
    }
    proof { assert(idx@.take(idx@.len() as int) == idx@); }
    base
}

/// What a reference resolves to: its file, the chunks it selects, and its
/// absolute line range.
struct RefInfo {
    file: Option<usize>,
    indices: Vec<usize>,
    range: Option<(usize, usize)>,
}

/// An optional range of indices as integers.
spec fn opt_range(r: Option<(usize, usize)>) -> Option<(int, int)> {
    match r {
        Some(x) => Some((x.0 as int, x.1 as int)),
        None => None,
    }
}

/// `info` is what reference `r` resolves to.
spec fn info_of(files: Seq<FileChunks>, r: RefV, info: RefInfo) -> bool {
    &&& info.file matches Some(i) ==> find_file(files, r.0) == Some(i as int) && i < files.len()
    &&& info.file is None ==> find_file(files, r.0) is None
    &&& info.file matches Some(f) ==> {
        &&& info.indices@ == ref_indices(files[f as int].metas@.len(), r)
        &&& opt_range(info.range) == abs_range(files[f as int].metas@, r)
    }
}

fn chars_of_opt(o: &Option<String>) -> (res: Option<Vec<char>>)
    ensures
        match o {
            Some(s) => res matches Some(v) && v@ == s@,
            None => res is None,
        },
{
    match o {
        Some(s) => Some(chars_of(s.as_str())),
        None => None,
    }
}

/// Resolves a reference; fails when its range arithmetic leaves `usize`.
fn ref_info(files: &Vec<FileChunks>, r: &DifftRef) -> (res: Result<RefInfo, CoverageError>)
    ensures
        match res {
            Ok(info) => info_of(files@, ref_view(*r), info)
                && (find_file(files@, r.file@) matches Some(f) ==> range_fits(files@[f].metas@, ref_view(*r))),
            Err(_) => find_file(files@, r.file@) matches Some(f) && !range_fits(files@[f].metas@, ref_view(*r)),
        },
{
    let path = r.file.as_str();
    let file = find_file_exec(files, path);
    match file {
        None => Ok(RefInfo { file: None, indices: Vec::new(), range: None }),
        Some(f) => {
            let metas = &files[f].metas;
            let ghost rv = ref_view(*r);
            proof {
                assert(path@ == r.file@);
                assert(find_file(files@, r.file@) == Some(f as int));
                assert(rv.0 == r.file@);
            }
            let cs = chars_of(r.chunks.as_str());
            let indices = parse_chunk_indices(cs.as_slice(), metas.len());
            proof {
                assert(files@[f as int].metas@ == metas@);
                assert(indices@ == ref_indices(metas@.len(), rv));
            }
            let range = match chars_of_opt(&r.lines) {
                None => {
                    assert(rv.2 is None);
                    None
                },
                Some(lc) => {
                    assert(rv.2 == Some(lc@));
                    match parse_lines_pair(lc.as_slice()) {
                        None => None,
                        Some((a, b)) => {
                            let base = meta_base_exec(metas, &indices);
                            if base == usize::MAX {
                                None
                            } else {
                                if a > usize::MAX - base || base + a < 1 || b > usize::MAX - base || base + b < 1 {
                                    assert(!range_fits(metas@, rv));
                                    assert(!range_fits(files@[f as int].metas@, ref_view(*r)));
                                    return Err(CoverageError::Overflow);
                                }
                                Some((base + a - 1, base + b - 1))
                            }
                        },
                    }
                },
            };
            proof {
                assert(opt_range(range) == abs_range(metas@, rv));
                assert(range_fits(metas@, rv));
                let info = RefInfo { file: Some(f), indices, range };
                assert(info_of(files@, rv, info));
            }
            Ok(RefInfo { file: Some(f), indices, range })
        },
    }
}

/// Whether `v` holds `x`.
fn vec_contains(v: &Vec<usize>, x: usize) -> (res: bool)
    ensures
        res == v@.contains(x),
{
    let mut i: usize = 0;
    while i < v.len()
        invariant
            i <= v@.len(),
            forall|j: int| 0 <= j < i ==> v@[j] != x,
        decreases v@.len() - i,
    {
        if v[i] == x {
            return true;
        }
        i = i + 1;
    }
    false
}

/// Whether the resolved reference names chunk `c` of file `f`.
fn info_targets(info: &RefInfo, f: usize, c: usize, n: usize) -> (res: bool)
    ensures
        res == (info.file == Some(f) && c < n && info.indices@.contains(c)),
{
    match info.file {
        Some(x) => x == f && c < n && vec_contains(&info.indices, c),
        None => false,
    }
}

/// Every resolved reference matches its reference.
spec fn infos_of(files: Seq<FileChunks>, rs: Seq<RefV>, infos: Seq<RefInfo>) -> bool {
    &&& infos.len() == rs.len()
    &&& forall|k: int| 0 <= k < rs.len() ==> info_of(files, #[trigger] rs[k], infos[k])
}

/// Whether some reference names chunk `c` of file `f`, and whether one names it
/// without a line range.
fn chunk_status(files: &Vec<FileChunks>, infos: &Vec<RefInfo>, f: usize, c: usize, Ghost(rs): Ghost<Seq<RefV>>) -> (res: (bool, bool))
    requires
        infos_of(files@, rs, infos@),
        f < files@.len(),
    ensures
        res.0 == is_refd(files@, rs, f as int, c as int),
        res.1 == is_full(files@, rs, f as int, c as int),
{
    let n = files[f].metas.len();
    let mut refd = false;
    let mut full = false;
    let mut k: usize = 0;
    while k < infos.len()
        invariant
            k <= infos@.len(),
            infos_of(files@, rs, infos@),
            f < files@.len(),
            n == files@[f as int].metas@.len(),
            refd == exists|j: int| 0 <= j < k && ref_targets(files@, #[trigger] rs[j], f as int, c as int),
            full == exists|j: int| 0 <= j < k && ref_targets(files@, #[trigger] rs[j], f as int, c as int)
                && abs_range(files@[f as int].metas@, rs[j]) is None,
        decreases infos@.len() - k,
    {
        let t = info_targets(&infos[k], f, c, n);
        proof {
            assert(info_of(files@, rs[k as int], infos@[k as int]));
            if infos@[k as int].file == Some(f) {
                assert(find_file(files@, rs[k as int].0) == Some(f as int));
            }
            assert(t == ref_targets(files@, rs[k as int], f as int, c as int));
        }
        if t {
            refd = true;
            if infos[k].range.is_none() {
                full = true;
            }
        }
        k = k + 1;
    }
    (refd, full)
}

/// Whether some reference names chunk `c` of file `f` with a range holding `p`.
fn covered_exec(files: &Vec<FileChunks>, infos: &Vec<RefInfo>, f: usize, c: usize, p: usize, Ghost(rs): Ghost<Seq<RefV>>) -> (res: bool)
    requires
        infos_of(files@, rs, infos@),
        f < files@.len(),
    ensures
        res == covers(files@, rs, f as int, c as int, p as int),
{
    let n = files[f].metas.len();
    let mut k: usize = 0;
    while k < infos.len()
        invariant
            k <= infos@.len(),
            infos_of(files@, rs, infos@),
            f < files@.len(),
            n == files@[f as int].metas@.len(),
            forall|j: int| 0 <= j < k ==> !(ref_targets(files@, #[trigger] rs[j], f as int, c as int)
                && in_range(abs_range(files@[f as int].metas@, rs[j]), p as int)),
        decreases infos@.len() - k,
    {
        let t = info_targets(&infos[k], f, c, n);
        proof {
            assert(info_of(files@, rs[k as int], infos@[k as int]));
            if infos@[k as int].file == Some(f) {
                assert(find_file(files@, rs[k as int].0) == Some(f as int));
            }
            assert(t == ref_targets(files@, rs[k as int], f as int, c as int));
        }
        if t {
            match infos[k].range {
                Some((a, b)) => {
                    if a <= p && p <= b {
                        return true;
                    }
                },
                None => {},
            }
        }
        k = k + 1;
    }
    false
}

/// Positions as relative 1-based lines from `base`, if all fit.
fn relative_lines(ps: &Vec<usize>, base: usize) -> (res: Option<Vec<usize>>)
    ensures
        res is None <==> !rel_fits(ps@, base),
        res matches Some(v) ==> v@ == rel_lines(ps@, base) && forall|i: int| 0 <= i < v@.len() ==> v@[i] < usize::MAX,
{
    let mut rel: Vec<usize> = Vec::new();
    let mut r: usize = 0;
    while r < ps.len()
        invariant
            r <= ps@.len(),
            forall|i: int| 0 <= i < r ==> base <= ps@[i] && ps@[i] - base + 1 < usize::MAX,
            rel@ == rel_lines(ps@.take(r as int), base),
        decreases ps@.len() - r,
    {
        let p = ps[r];
        if p < base || p - base >= usize::MAX - 1 {
            return None;
        }
        rel.push(p - base + 1);
        proof { assert(rel@ =~= rel_lines(ps@.take(r + 1), base)); }
        r = r + 1;
    }
    proof { assert(ps@.take(ps@.len() as int) == ps@); }
    Some(rel)
}

/// Check that the references cover every collected chunk: each chunk must be
/// referenced, and a chunk referenced only with `lines=` ranges must have all
/// its entry positions inside one of them. Files are reported in the given
/// order, chunks in order. Fails when line arithmetic leaves `usize`.
pub fn check_coverage(files: &Vec<FileChunks>, refs: &Vec<DifftRef>) -> (res: Result<CoverageReport, CoverageError>)
    requires
        chunks_upto(files@, files@.len() as int) <= usize::MAX,
    ensures
        ({
            let rs = refs@.map_values(|r: DifftRef| ref_view(r));
            &&& res is Err <==> !(refs_fit(files@, rs) && report_fits(files@, rs))
            &&& res matches Ok(rep) ==> {
                &&& rep.uncovered@.map_values(|u: Uncovered| unc_view(u)) == report_upto(files@, rs, files@.len() as int)
                &&& rep.complete == (rep.uncovered@.len() == 0)
                &&& rep.total_chunks == chunks_upto(files@, files@.len() as int)
                &&& rep.referenced_chunks == refd_upto(files@, rs, files@.len() as int)
            }
        }),
{
    let ghost rs = refs@.map_values(|r: DifftRef| ref_view(r));
    let mut infos: Vec<RefInfo> = Vec::new();
    let mut k: usize = 0;
    while k < refs.len()
        invariant
            k <= refs@.len(),
            rs == refs@.map_values(|r: DifftRef| ref_view(r)),
            infos@.len() == k,
            forall|j: int| 0 <= j < k ==> info_of(files@, #[trigger] rs[j], infos@[j]),
            forall|j: int| 0 <= j < k ==> (find_file(files@, (#[trigger] rs[j]).0) matches Some(f) ==> range_fits(files@[f].metas@, rs[j])),
        decreases refs@.len() - k,
    {
        match ref_info(files, &refs[k]) {
            Err(e) => {
                proof {
                    assert(rs[k as int] == ref_view(refs@[k as int]));
                    assert(!refs_fit(files@, rs));
                }
                return Err(e);
            },
            Ok(info) => {
                proof { assert(rs[k as int] == ref_view(refs@[k as int])); }
                infos.push(info);
            },
        }
        k = k + 1;
    }
    proof {
        assert(refs_fit(files@, rs));
        assert(infos_of(files@, rs, infos@));
    }
    let mut uncovered: Vec<Uncovered> = Vec::new();
    let mut total: usize = 0;
    let mut referenced: usize = 0;
    let mut f: usize = 0;
    while f < files.len()
        invariant
            f <= files@.len(),
            rs == refs@.map_values(|r: DifftRef| ref_view(r)),
            infos_of(files@, rs, infos@),
            chunks_upto(files@, files@.len() as int) <= usize::MAX,
            total == chunks_upto(files@, f as int),
            referenced == refd_upto(files@, rs, f as int),
            uncovered@.map_values(|u: Uncovered| unc_view(u)) == report_upto(files@, rs, f as int),
            forall|g: int, c: int| 0 <= g < f && 0 <= c < files@[g].metas@.len()
                && #[trigger] is_refd(files@, rs, g, c) && !is_full(files@, rs, g, c) ==> {
                let m = files@[g].metas@[c];
                rel_fits(missed(m.positions@, files@, rs, g, c), meta_rel_base(m))
            },
        decreases files@.len() - f,
    {
        let metas = &files[f].metas;
        let n = metas.len();
        proof {
            lemma_chunks_upto_mono(files@, f as int + 1, files@.len() as int);
            lemma_refd_upto_le(files@, rs, f as int);
        }
        let ghost before_u = uncovered@.map_values(|u: Uncovered| unc_view(u));
        let ghost ref_before = referenced as int;
        let mut c: usize = 0;
        while c < n
            invariant
                c <= n == files@[f as int].metas@.len(),
                f < files@.len(),
                metas == &files@[f as int].metas,
                rs == refs@.map_values(|r: DifftRef| ref_view(r)),
                infos_of(files@, rs, infos@),
                uncovered@.map_values(|u: Uncovered| unc_view(u)) == before_u + file_report(files@, rs, f as int, c as int),
                referenced as int == ref_before + refd_in_file(files@, rs, f as int, c as int),
                ref_before + refd_in_file(files@, rs, f as int, c as int) <= usize::MAX,
                refd_in_file(files@, rs, f as int, c as int) <= c,
                ref_before == refd_upto(files@, rs, f as int),
                refd_upto(files@, rs, f as int) <= chunks_upto(files@, f as int),
                chunks_upto(files@, f as int + 1) <= usize::MAX,
                forall|g: int, c2: int| ((0 <= g < f && 0 <= c2 < files@[g].metas@.len()) || (g == f && 0 <= c2 < c))
                    && #[trigger] is_refd(files@, rs, g, c2) && !is_full(files@, rs, g, c2) ==> {
                    let m = files@[g].metas@[c2];
                    rel_fits(missed(m.positions@, files@, rs, g, c2), meta_rel_base(m))
                },
            decreases n - c,
        {
            let (refd, full) = chunk_status(files, &infos, f, c, Ghost(rs));
            let ghost prev = uncovered@;
            if !refd {
                uncovered.push(Uncovered { file: files[f].path.clone(), chunk: c, uncovered_lines: None });
                proof {
                    assert(uncovered@.map_values(|u: Uncovered| unc_view(u)) =~= prev.map_values(|u: Uncovered| unc_view(u)).push(unc_view(uncovered@[prev.len() as int])));
                }
            } else if !full {
                let m = &metas[c];
                let ghost pos = m.positions@;
                let mut miss: Vec<usize> = Vec::new();
                let ghost mm = files@[f as int].metas@[c as int];
                assert(*m == mm);
                let mut q: usize = 0;
                while q < m.positions.len()
                    invariant
                        q <= pos.len(),
                        pos == m.positions@,
                        f < files@.len(),
                        infos_of(files@, rs, infos@),
                        miss@ == missed(pos.take(q as int), files@, rs, f as int, c as int),
                    decreases pos.len() - q,
                {
                    let p = m.positions[q];
                    proof {
                        assert(pos.take(q + 1).drop_last() == pos.take(q as int));
                        assert(pos.take(q + 1).last() == p);
                    }
                    if !covered_exec(files, &infos, f, c, p, Ghost(rs)) {
                        miss.push(p);
                    }
                    q = q + 1;
                }
                proof { assert(pos.take(pos.len() as int) == pos); }
                if miss.len() > 0 {
                    let base = match m.base_rhs { Some(b) => b, None => 0 };
                    let rel = match relative_lines(&miss, base) {
                        Some(v) => v,
                        None => {
                            proof {
                                assert(miss@ == missed(mm.positions@, files@, rs, f as int, c as int));
                                assert(base == meta_rel_base(mm));
                                assert(!report_fits(files@, rs));
                            }
                            return Err(CoverageError::Overflow);
                        },
                    };
                    let lines = format_ranges(rel.as_slice());
                    uncovered.push(Uncovered { file: files[f].path.clone(), chunk: c, uncovered_lines: Some(lines) });
                    proof {
                        assert(uncovered@.map_values(|u: Uncovered| unc_view(u)) =~= prev.map_values(|u: Uncovered| unc_view(u)).push(unc_view(uncovered@[prev.len() as int])));
                    }
                }
            }
            if refd {
                referenced = referenced + 1;
            }
            c = c + 1;
        }
        total = total + n;
        f = f + 1;
    }
    let complete = uncovered.len() == 0;
    Ok(CoverageReport { complete, uncovered, total_chunks: total, referenced_chunks: referenced })
}

proof fn lemma_refd_in_file_le(files: Seq<FileChunks>, rs: Seq<RefV>, f: int, k: int)
    requires
        0 <= k,
    ensures
        refd_in_file(files, rs, f, k) <= k,
    decreases k,
{
    if k > 0 {
        lemma_refd_in_file_le(files, rs, f, k - 1);
    }
}

proof fn lemma_refd_upto_le(files: Seq<FileChunks>, rs: Seq<RefV>, n: int)
    requires
        0 <= n <= files.len(),
    ensures
        refd_upto(files, rs, n) <= chunks_upto(files, n),
    decreases n,
{
    if n > 0 {
        lemma_refd_upto_le(files, rs, n - 1);
        lemma_refd_in_file_le(files, rs, n - 1, files[n - 1].metas@.len() as int);
    }
}

proof fn lemma_chunks_upto_mono(files: Seq<FileChunks>, a: int, b: int)
    requires
        0 <= a <= b <= files.len(),
    ensures
        chunks_upto(files, a) <= chunks_upto(files, b),
    decreases b - a,
{
    if a < b {
        lemma_chunks_upto_mono(files, a, b - 1);
    }
}

/// A chunk that no reference names is reported as unreferenced.
pub proof fn lemma_unreferenced_reported(files: Seq<FileChunks>, rs: Seq<RefV>, f: int, c: int)
    requires
        0 <= f < files.len(),
        0 <= c < files[f].metas@.len(),
        forall|k: int| 0 <= k < rs.len() ==> !ref_targets(files, #[trigger] rs[k], f, c),
    ensures
        entry_for(files, rs, f, c) == Some((files[f].path@, c as usize, None::<Seq<char>>)),
{
}

/// A chunk named by a reference without a line range is covered.
pub proof fn lemma_full_reference_covers(files: Seq<FileChunks>, rs: Seq<RefV>, f: int, c: int, k: int)
    requires
        0 <= k < rs.len(),
        ref_targets(files, rs[k], f, c),
        abs_range(files[f].metas@, rs[k]) is None,
    ensures
        entry_for(files, rs, f, c) is None,
{
    assert(is_refd(files, rs, f, c));
    assert(is_full(files, rs, f, c));
}

proof fn lemma_missed_empty(ps: Seq<usize>, files: Seq<FileChunks>, rs: Seq<RefV>, f: int, c: int)
    ensures
        missed(ps, files, rs, f, c).len() == 0
            <==> forall|i: int| 0 <= i < ps.len() ==> covers(files, rs, f, c, #[trigger] ps[i] as int),
    decreases ps.len(),
{
    if ps.len() > 0 {
        let t = ps.drop_last();
        lemma_missed_empty(t, files, rs, f, c);
        if forall|i: int| 0 <= i < ps.len() ==> covers(files, rs, f, c, #[trigger] ps[i] as int) {
            assert forall|i: int| 0 <= i < t.len() implies covers(files, rs, f, c, #[trigger] t[i] as int) by {
                assert(t[i] == ps[i]);
            }
            assert(covers(files, rs, f, c, ps[ps.len() - 1] as int));
        }
        if missed(ps, files, rs, f, c).len() == 0 {
            assert(covers(files, rs, f, c, ps.last() as int));
            assert forall|i: int| 0 <= i < ps.len() implies covers(files, rs, f, c, #[trigger] ps[i] as int) by {
                if i < t.len() {
                    assert(t[i] == ps[i]);
                    assert(covers(files, rs, f, c, t[i] as int));
                }
            }
        }
    }
}

/// A chunk is left out of the report exactly when some reference names it
/// and either one names it without a line range or the line ranges together
/// hold every one of its changed positions.
pub proof fn lemma_chunk_covered_iff(files: Seq<FileChunks>, rs: Seq<RefV>, f: int, c: int)
    ensures
        entry_for(files, rs, f, c) is None <==> {
            &&& is_refd(files, rs, f, c)
            &&& (is_full(files, rs, f, c) || forall|i: int| 0 <= i < files[f].metas@[c].positions@.len()
                    ==> covers(files, rs, f, c, #[trigger] files[f].metas@[c].positions@[i] as int))
        },
{
    let ps = files[f].metas@[c].positions@;
    lemma_missed_empty(ps, files, rs, f, c);
}

proof fn lemma_file_report_empty(files: Seq<FileChunks>, rs: Seq<RefV>, f: int, k: int)
    requires
        0 <= k,
    ensures
        file_report(files, rs, f, k).len() == 0 <==> forall|c: int| 0 <= c < k ==> (#[trigger] entry_for(files, rs, f, c)) is None,
    decreases k,
{
    if k > 0 {
        lemma_file_report_empty(files, rs, f, k - 1);
    }
}

/// The coverage report is empty exactly when no chunk of the first `n` files
/// has a report entry, i.e. (by [`lemma_chunk_covered_iff`]) when every chunk
/// is referenced and wholly covered.
pub proof fn lemma_report_empty_iff(files: Seq<FileChunks>, rs: Seq<RefV>, n: int)
    requires
        0 <= n <= files.len(),
    ensures
        report_upto(files, rs, n).len() == 0 <==> forall|f: int, c: int| 0 <= f < n && 0 <= c < files[f].metas@.len()
            ==> (#[trigger] entry_for(files, rs, f, c)) is None,
    decreases n,
{
    if n > 0 {
        lemma_report_empty_iff(files, rs, n - 1);
        lemma_file_report_empty(files, rs, n - 1, files[n - 1].metas@.len() as int);
        let r = report_upto(files, rs, n - 1);
        let fr = file_report(files, rs, n - 1, files[n - 1].metas@.len() as int);
        assert((r + fr).len() == r.len() + fr.len());
        if report_upto(files, rs, n).len() == 0 {
            assert forall|f: int, c: int| 0 <= f < n && 0 <= c < files[f].metas@.len()
                implies (#[trigger] entry_for(files, rs, f, c)) is None by {
                if f == n - 1 {
                    assert(0 <= c < files[n - 1].metas@.len());
                }
            }
        }
    }
}

/// Line ranges that together hold every position of a referenced chunk cover
/// it, however the positions are split among them.
pub proof fn lemma_split_ranges_cover(files: Seq<FileChunks>, rs: Seq<RefV>, f: int, c: int)
    requires
        0 <= f < files.len(),
        0 <= c < files[f].metas@.len(),
        is_refd(files, rs, f, c),
        forall|i: int| 0 <= i < files[f].metas@[c].positions@.len()
            ==> covers(files, rs, f, c, #[trigger] files[f].metas@[c].positions@[i] as int),
    ensures
        entry_for(files, rs, f, c) is None,
{
    lemma_missed_empty(files[f].metas@[c].positions@, files, rs, f, c);
}

/// A chunk is reported as unreferenced (an entry without line ranges)
/// exactly when no reference names it; with the references found in a
/// markdown text, exactly when none of them names it.
pub proof fn lemma_unreferenced_iff(files: Seq<FileChunks>, md: Seq<char>, f: int, c: int)
    requires
        0 <= f < files.len(),
        0 <= c < files[f].metas@.len(),
    ensures
        entry_for(files, crate::refs::md_refs(md), f, c) == Some((files[f].path@, c as usize, None::<Seq<char>>))
            <==> forall|k: int| 0 <= k < crate::refs::md_refs(md).len()
                ==> !ref_targets(files, #[trigger] crate::refs::md_refs(md)[k], f, c),
{
}

} // verus!
