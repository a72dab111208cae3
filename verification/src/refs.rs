//! References to diff blocks in a walkthrough's markdown: the words
//! `FILE chunks=SPEC [lines=RANGE]` after a ```` ```difft ```` fence.

use vstd::prelude::*;
use crate::text::{is_whitespace, is_ws, string_of_chars};

verus! {

/// Positions of one reference: (end, file, chunks, optional lines), each part
/// a (start, end) range of characters.
pub type RefMatch = (int, (int, int), (int, int), Option<(int, int)>);

/// One reference to collected chunks.
pub struct DifftRef {
    pub file: String,
    pub chunks: String,
    pub lines: Option<String>,
}

/// The number of white-space characters from `i` on.
pub open spec fn ws_run(s: Seq<char>, i: int) -> int
    decreases s.len() - i,
{
    if 0 <= i < s.len() && is_ws(s[i]) { 1 + ws_run(s, i + 1) } else { 0 }
}

/// The number of non-white-space characters from `i` on.
pub open spec fn word_run(s: Seq<char>, i: int) -> int
    decreases s.len() - i,
{
    if 0 <= i < s.len() && !is_ws(s[i]) { 1 + word_run(s, i + 1) } else { 0 }
}

/// Whether `s` holds `lit` at `i`.
pub open spec fn has_at(s: Seq<char>, i: int, lit: Seq<char>) -> bool {
    0 <= i && i + lit.len() <= s.len() && s.subrange(i, i + lit.len() as int) == lit
}

/// `\s+(\S+)\s+chunks=(\S+)(?:\s+lines=(\S+))?` matched at `j`: white space,
/// the file word, white space, `chunks=` and its word, then optionally white
/// space, `lines=` and its word.
pub open spec fn ref_body(s: Seq<char>, j: int) -> Option<RefMatch> {
    let a = j + ws_run(s, j);
    let b = a + word_run(s, a);
    let c = b + ws_run(s, b);
    let d = c + 7;
    let e = d + word_run(s, d);
    if ws_run(s, j) == 0 || b == a || c == b || !has_at(s, c, "chunks="@) || e == d {
        None
    } else {
        let w = ws_run(s, e);
        let l = e + w + 6;
        let m = l + word_run(s, l);
        if w > 0 && has_at(s, e + w, "lines="@) && m > l {
            Some((m, (a, b), (d, e), Some((l, m))))
        } else {
            Some((e, (a, b), (d, e), None))
        }
    }
}

/// ```` ```difft? ```` followed by a reference, matched at `i`.
pub open spec fn fence_ref_at(s: Seq<char>, i: int) -> Option<RefMatch> {
    if !has_at(s, i, "```diff"@) {
        None
    } else if i + 7 < s.len() && s[i + 7] == 't' {
        ref_body(s, i + 8)
    } else {
        ref_body(s, i + 7)
    }
}

/// The references in `s` from `i` on, leftmost first and not overlapping.
pub open spec fn scan_refs(s: Seq<char>, i: int) -> Seq<RefMatch>
    decreases s.len() - i,
{
    if i < 0 || i >= s.len() {
        Seq::empty()
    } else {
        match fence_ref_at(s, i) {
            Some(m) => if i < m.0 <= s.len() { seq![m] + scan_refs(s, m.0) } else { Seq::empty() },
            None => scan_refs(s, i + 1),
        }
    }
}

/// The text of a reference part.
pub open spec fn part(s: Seq<char>, r: (int, int)) -> Seq<char> {
    s.subrange(r.0, r.1)
}

/// A reference's file, chunk selection and optional line range as text.
pub open spec fn ref_texts(s: Seq<char>, m: RefMatch) -> (Seq<char>, Seq<char>, Option<Seq<char>>) {
    (part(s, m.1), part(s, m.2), match m.3 { Some(r) => Some(part(s, r)), None => None })
}

/// The view of a reference.
pub open spec fn ref_view(r: DifftRef) -> (Seq<char>, Seq<char>, Option<Seq<char>>) {
    (r.file@, r.chunks@, match r.lines { Some(l) => Some(l@), None => None })
}

pub(crate) fn ws_len(s: &[char], i: usize) -> (n: usize)
    requires
        i <= s@.len(),
    ensures
        n as int == ws_run(s@, i as int),
        i + n <= s@.len(),
{
    let mut k: usize = i;
    while k < s.len() && is_whitespace(s[k])
        invariant
            i <= k <= s@.len(),
            ws_run(s@, i as int) == (k - i) + ws_run(s@, k as int),
        decreases s@.len() - k,
    {
        k = k + 1;
    }
    k - i
}

pub(crate) fn word_len(s: &[char], i: usize) -> (n: usize)
    requires
        i <= s@.len(),
    ensures
        n as int == word_run(s@, i as int),
        i + n <= s@.len(),
{
    let mut k: usize = i;
    while k < s.len() && !is_whitespace(s[k])
        invariant
            i <= k <= s@.len(),
            word_run(s@, i as int) == (k - i) + word_run(s@, k as int),
        decreases s@.len() - k,
    {
        k = k + 1;
    }
    k - i
}

pub(crate) fn has_lit_at(s: &[char], i: usize, lit: &str) -> (res: bool)
    ensures
        res == has_at(s@, i as int, lit@),
{
    let l: Vec<char> = crate::text::chars_of(lit);
    let n = s.len();
    if i > s.len() || l.len() > s.len() - i {
        return false;
    }
    let mut k: usize = 0;
    while k < l.len()
        invariant
            k <= l@.len(),
            l@ == lit@,
            n == s@.len(),
            i + l@.len() <= s@.len(),
            forall|q: int| 0 <= q < k ==> s@[i + q] == l@[q],
        decreases l@.len() - k,
    {
        if s[i + k] != l[k] {
            assert(s@.subrange(i as int, i + l@.len())[k as int] != l@[k as int]);
            return false;
        }
        k = k + 1;
    }
    assert(s@.subrange(i as int, i + l@.len()) =~= l@);
    true
}

/// The reference matched at `j` (after the fence's keyword), if any.
pub fn match_ref_body(s: &[char], j: usize) -> (res: Option<(usize, (usize, usize), (usize, usize), Option<(usize, usize)>)>)
    requires
        j <= s@.len(),
    ensures
        match ref_body(s@, j as int) {
            None => res is None,
            Some(m) => res matches Some(r) && m == (r.0 as int, (r.1.0 as int, r.1.1 as int), (r.2.0 as int, r.2.1 as int),
                match r.3 { Some(x) => Some((x.0 as int, x.1 as int)), None => None })
                && j < r.1.0 <= r.1.1 <= r.2.0 <= r.2.1 <= r.0 <= s@.len()
                && (r.3 matches Some(x) ==> r.2.1 <= x.0 <= x.1 == r.0),
        },
{
    let n = s.len();
    let w0 = ws_len(s, j);
    let a = j + w0;
    let b = a + word_len(s, a);
    let c = b + ws_len(s, b);
    if w0 == 0 || b == a || c == b || !has_lit_at(s, c, "chunks=") {
        return None;
    }
    proof { reveal_strlit("chunks="); }
    let d = c + 7;
    let e = d + word_len(s, d);
    if e == d {
        return None;
    }
    let w = ws_len(s, e);
    if w > 0 && has_lit_at(s, e + w, "lines=") {
        proof { reveal_strlit("lines="); }
        let l = e + w + 6;
        let m = l + word_len(s, l);
        if m > l {
            return Some((m, (a, b), (d, e), Some((l, m))));
        }
    }
    Some((e, (a, b), (d, e), None))
}

fn slice_string(s: &[char], from: usize, to: usize) -> (res: String)
    requires
        from <= to <= s@.len(),
    ensures
        res@ == s@.subrange(from as int, to as int),
{
    let mut v: Vec<char> = Vec::new();
    let mut k = from;
    while k < to
        invariant
            from <= k <= to <= s@.len(),
            v@ == s@.subrange(from as int, k as int),
        decreases to - k,
    {
        v.push(s[k]);
        proof { assert(v@ =~= s@.subrange(from as int, k + 1)); }
        k = k + 1;
    }
    string_of_chars(v.as_slice())
}

/// The reference at a match.
pub fn ref_of(s: &[char], r: (usize, (usize, usize), (usize, usize), Option<(usize, usize)>)) -> (res: DifftRef)
    requires
        r.1.0 <= r.1.1 <= s@.len(),
        r.2.0 <= r.2.1 <= s@.len(),
        r.3 matches Some(x) ==> x.0 <= x.1 <= s@.len(),
    ensures
        ref_view(res) == ref_texts(s@, (r.0 as int, (r.1.0 as int, r.1.1 as int), (r.2.0 as int, r.2.1 as int),
            match r.3 { Some(x) => Some((x.0 as int, x.1 as int)), None => None })),
{
    let file = slice_string(s, r.1.0, r.1.1);
    let chunks = slice_string(s, r.2.0, r.2.1);
    let lines = match r.3 {
        Some(x) => Some(slice_string(s, x.0, x.1)),
        None => None,
    };
    DifftRef { file, chunks, lines }
}

/// Every ```` ```difft FILE chunks=SPEC [lines=RANGE] ```` reference in a
/// markdown text (```` ```diff ```` also starts one), leftmost first and not
/// overlapping, as `Regex::captures_iter` finds them.
pub fn find_difft_refs(md: &str) -> (res: Vec<DifftRef>)
    ensures
        res@.len() == scan_refs(md@, 0).len(),
        forall|k: int| 0 <= k < res@.len() ==> ref_view(#[trigger] res@[k]) == ref_texts(md@, scan_refs(md@, 0)[k]),
        res@.map_values(|r: DifftRef| ref_view(r)) == md_refs(md@),
{
    let s = crate::text::chars_of(md);
    let mut res: Vec<DifftRef> = Vec::new();
    let mut i: usize = 0;
    while i < s.len()
        invariant
            i <= s@.len(),
            s@ == md@,
            ({
                let done = res@.len();
                &&& scan_refs(s@, 0).len() == done + scan_refs(s@, i as int).len()
                &&& forall|k: int| 0 <= k < done ==> ref_view(#[trigger] res@[k]) == ref_texts(s@, scan_refs(s@, 0)[k])
                &&& forall|k: int| 0 <= k < scan_refs(s@, i as int).len() ==> scan_refs(s@, 0)[done + k] == #[trigger] scan_refs(s@, i as int)[k]
            }),
        decreases s@.len() - i,
    {
        let ghost done = res@.len();
        let ghost before = res@;
        let fence = has_lit_at(s.as_slice(), i, "```diff");
        let m = if fence {
            proof { reveal_strlit("```diff"); }
            let j = if i + 7 < s.len() && s[i + 7] == 't' { i + 8 } else { i + 7 };
            match_ref_body(s.as_slice(), j)
        } else {
            None
        };
        match m {
            Some(r) => {
                proof {
                    reveal_strlit("```diff");
                    assert(r.0 > i);
                    assert(scan_refs(s@, i as int)[0] == fence_ref_at(s@, i as int)->0);
                }
                res.push(ref_of(s.as_slice(), r));
                proof {
                    assert forall|k: int| 0 <= k < res@.len() implies ref_view(#[trigger] res@[k]) == ref_texts(s@, scan_refs(s@, 0)[k]) by {
                        if k < done { assert(res@[k] == before[k]); }
                    }
                    assert forall|k: int| 0 <= k < scan_refs(s@, r.0 as int).len() implies scan_refs(s@, 0)[res@.len() + k] == #[trigger] scan_refs(s@, r.0 as int)[k] by {
                        assert(scan_refs(s@, i as int)[k + 1] == scan_refs(s@, r.0 as int)[k]);
                    }
                }
                i = r.0;
            },
            None => {
                proof { reveal_strlit("```diff"); }
                i = i + 1;
            },
        }
    }
    proof {
        assert(res@.map_values(|r: DifftRef| ref_view(r)) =~= md_refs(md@));
    }
    res
}

/// The references of a markdown text, as (file, chunks, lines) texts, in order.
pub open spec fn md_refs(md: Seq<char>) -> Seq<(Seq<char>, Seq<char>, Option<Seq<char>>)> {
    Seq::new(scan_refs(md, 0).len(), |k: int| ref_texts(md, scan_refs(md, 0)[k]))
}

} // verus!
