//! Search over the lines of a terminal screen.
//!
//! The screen is scanned top to bottom.  The text of each visible cell is
//! appended to a byte haystack, and a `Coord` records where each cell's
//! text begins, so that a byte offset of a match can be mapped back to a
//! cell.
use vstd::prelude::*;
use vstd::string::StringSliceAdditionalSpecFns;
use vstd::string::StringExecFns;
use vstd::utf8::{decode_utf8, encode_utf8, encode_utf8_decode_utf8};

verus! {

/// A logical row identifier that stays valid as scrollback grows and is trimmed.
pub type StableRowIndex = isize;

/// An entry of the coordinate table: the haystack offset at which a cell's
/// text begins, and where that cell stands on the screen.
#[derive(Clone, Copy, Debug, PartialEq, Eq, Structural)]
pub struct Coord {
    pub byte_idx: usize,
    pub grapheme_idx: usize,
    pub stable_row: StableRowIndex,
}

/// The byte offsets of the table never decrease.
pub open spec fn coords_sorted(coords: Seq<Coord>) -> bool {
    forall|i: int, j: int|
        0 <= i <= j < coords.len() ==> #[trigger] coords[i].byte_idx <= #[trigger] coords[j].byte_idx
}

/// The index of the last entry whose offset is at or before `idx`; the
/// first entry where there is none.
pub open spec fn last_at_or_before(coords: Seq<Coord>, idx: int) -> int
    decreases coords.len(),
{
    if coords.len() == 0 {
        0
    } else if coords.last().byte_idx <= idx {
        coords.len() - 1
    } else {
        last_at_or_before(coords.drop_last(), idx)
    }
}

/// The cell that a haystack offset resolves to, as (grapheme index, stable row).
pub open spec fn coord_of(coords: Seq<Coord>, idx: int) -> (usize, StableRowIndex) {
    let c = coords[last_at_or_before(coords, idx)];
    (c.grapheme_idx, c.stable_row)
}

proof fn lemma_last_at_or_before_bounds(coords: Seq<Coord>, idx: int)
    requires
        coords.len() > 0,
    ensures
        0 <= last_at_or_before(coords, idx) < coords.len(),
    decreases coords.len(),
{
    if coords.last().byte_idx > idx {
        if coords.len() > 1 {
            lemma_last_at_or_before_bounds(coords.drop_last(), idx);
        } else {
            assert(last_at_or_before(coords.drop_last(), idx) == 0);
        }
    }
}

/// In a sorted table, an index `k` whose entry is at or before `idx` (or the
/// first entry, where none is) and whose successor lies beyond `idx` is the
/// one `last_at_or_before` names.
proof fn lemma_last_at_or_before_unique(coords: Seq<Coord>, idx: int, k: int)
    requires
        coords_sorted(coords),
        0 <= k < coords.len(),
        coords[k].byte_idx <= idx || k == 0,
        k + 1 < coords.len() ==> coords[k + 1].byte_idx > idx,
    ensures
        last_at_or_before(coords, idx) == k,
    decreases coords.len(),
{
    let n = coords.len();
    if k + 1 < n {
        assert(coords[k + 1].byte_idx <= coords[n - 1].byte_idx);
        let d = coords.drop_last();
        assert(coords.last().byte_idx > idx);
        assert(d[k] == coords[k]);
        if k + 1 < d.len() {
            assert(d[k + 1] == coords[k + 1]);
        }
        assert forall|i: int, j: int| 0 <= i <= j < d.len() implies #[trigger] d[i].byte_idx
            <= #[trigger] d[j].byte_idx by {
            assert(coords[i].byte_idx <= coords[j].byte_idx);
        }
        lemma_last_at_or_before_unique(d, idx, k);
    } else if coords[k].byte_idx > idx {
        assert(k == 0);
        assert(last_at_or_before(coords.drop_last(), idx) == 0);
    }
}

/// Resolves a haystack byte offset to the cell whose text holds it: the last
/// entry of the table that begins at or before the offset, found by binary
/// search.  An offset beyond the last entry resolves to the last entry, and
/// one before the first entry to the first.  An empty table resolves nothing.
pub fn haystack_idx_to_coord(idx: usize, coords: &Vec<Coord>) -> (r: Option<(usize, StableRowIndex)>)
    requires
        coords_sorted(coords@),
    ensures
        coords@.len() == 0 ==> r is None,
        coords@.len() > 0 ==> r == Some(coord_of(coords@, idx as int)),
{
    if coords.len() == 0 {
        return None;
    }
    // The first entry that begins after `idx`.
    let mut lo: usize = 0;
    let mut hi: usize = coords.len();
    while lo < hi
        invariant
            0 <= lo <= hi <= coords@.len(),
            coords_sorted(coords@),
            forall|j: int| 0 <= j < lo ==> (#[trigger] coords@[j]).byte_idx <= idx,
            forall|j: int| hi <= j < coords@.len() ==> (#[trigger] coords@[j]).byte_idx > idx,
        decreases hi - lo,
    {
        let mid = lo + (hi - lo) / 2;
        if coords[mid].byte_idx <= idx {
            proof {
                assert forall|j: int| 0 <= j < mid + 1 implies (#[trigger] coords@[j]).byte_idx
                    <= idx by {
                    assert(coords@[j].byte_idx <= coords@[mid as int].byte_idx);
                }
            }
            lo = mid + 1;
        } else {
            proof {
                assert forall|j: int| mid <= j < coords@.len() implies (#[trigger] coords@[j]).byte_idx
                    > idx by {
                    assert(coords@[mid as int].byte_idx <= coords@[j].byte_idx);
                }
            }
            hi = mid;
        }
    }
    let k: usize = if lo == 0 { 0 } else { lo - 1 };
    proof {
        lemma_last_at_or_before_unique(coords@, idx as int, k as int);
    }
    let c = coords[k];
    Some((c.grapheme_idx, c.stable_row))
}

/// A half-open byte range `(start, end)` of the haystack.
pub open spec fn spans_view(v: Seq<(usize, usize)>) -> Seq<(int, int)> {
    v.map_values(|x: (usize, usize)| (x.0 as int, x.1 as int))
}

/// Whether byte offset `i` starts a character of UTF-8 text `hay`, or is its end.
pub open spec fn is_char_boundary(hay: Seq<u8>, i: int) -> bool {
    i == hay.len() || (0 <= i < hay.len() && !(0x80 <= hay[i] < 0xC0))
}

/// Whether `needle` occurs in `hay` at offset `i`.  The empty needle
/// occurs at each character boundary.
pub open spec fn occurs_at(hay: Seq<u8>, needle: Seq<u8>, i: int) -> bool {
    &&& 0 <= i
    &&& i + needle.len() <= hay.len()
    &&& hay.subrange(i, i + needle.len()) == needle
    &&& (needle.len() > 0 || is_char_boundary(hay, i))
}

/// The leftmost non-overlapping occurrences of `needle` in `hay` at or
/// after offset `i`, in order.
pub open spec fn literal_spans_from(hay: Seq<u8>, needle: Seq<u8>, i: int) -> Seq<(int, int)>
    decreases hay.len() + 1 - i,
{
    if i < 0 || i > hay.len() {
        seq![]
    } else if occurs_at(hay, needle, i) {
        let next = if needle.len() == 0 { i + 1 } else { i + needle.len() };
        seq![(i, i + needle.len())] + literal_spans_from(hay, needle, next)
    } else {
        literal_spans_from(hay, needle, i + 1)
    }
}

/// The leftmost non-overlapping occurrences of `needle` in `hay`.
pub open spec fn literal_spans(hay: Seq<u8>, needle: Seq<u8>) -> Seq<(int, int)> {
    literal_spans_from(hay, needle, 0)
}

fn occurs_at_exec(hay: &Vec<u8>, needle: &Vec<u8>, i: usize) -> (r: bool)
    requires
        i <= hay@.len(),
    ensures
        r == occurs_at(hay@, needle@, i as int),
{
    if needle.len() > hay.len() - i {
        return false;
    }
    if needle.len() == 0 {
        assert(hay@.subrange(i as int, i as int) =~= needle@);
        return i == hay.len() || !(0x80 <= hay[i] && hay[i] < 0xC0);
    }
    let n = hay.len();
    let mut k: usize = 0;
    while k < needle.len()
        invariant
            k <= needle@.len(),
            hay@.len() == n,
            i + needle@.len() <= hay@.len(),
            forall|j: int| 0 <= j < k ==> hay@[i + j] == needle@[j],
        decreases needle@.len() - k,
    {
        if hay[i + k] != needle[k] {
            assert(hay@.subrange(i as int, i + needle@.len())[k as int] != needle@[k as int]);
            return false;
        }
        k += 1;
    }
    assert(hay@.subrange(i as int, i + needle@.len()) =~= needle@);
    true
}

/// Finds the leftmost non-overlapping occurrences of `needle` in `hay`, as
/// byte ranges in order.
pub fn find_literal(hay: &Vec<u8>, needle: &Vec<u8>) -> (r: Vec<(usize, usize)>)
    ensures
        spans_view(r@) == literal_spans(hay@, needle@),
{
    let mut r: Vec<(usize, usize)> = Vec::new();
    let n = hay.len();
    let mut i: usize = 0;
    while i < n
        invariant
            i <= n,
            hay@.len() == n,
            spans_view(r@) + literal_spans_from(hay@, needle@, i as int) == literal_spans(hay@, needle@),
        decreases n - i,
    {
        let ghost r0 = r@;
        if occurs_at_exec(hay, needle, i) {
            let end = i + needle.len();
            r.push((i, end));
            assert(spans_view(r@) =~= spans_view(r0) + seq![(i as int, end as int)]);
            if needle.len() == 0 {
                i = i + 1;
            } else {
                i = end;
            }
        } else {
            i = i + 1;
        }
    }
    // At the end of the haystack only the empty needle occurs.
    let ghost r0 = r@;
    if occurs_at_exec(hay, needle, n) {
        r.push((n, n));
        assert(spans_view(r@) =~= spans_view(r0) + seq![(n as int, n as int)]);
    }
    assert(literal_spans_from(hay@, needle@, n + 1) == Seq::<(int, int)>::empty());
    assert(spans_view(r@) =~= literal_spans(hay@, needle@));
    r
}

/// What to look for.
pub enum Pattern {
    CaseSensitiveString(String),
    CaseInSensitiveString(String),
    Regex(String),
}

/// One match, from its first cell to the cell at its end.
#[derive(Clone, Copy, Debug, PartialEq, Eq, Structural)]
pub struct SearchResult {
    pub start_x: usize,
    pub start_y: StableRowIndex,
    pub end_x: usize,
    pub end_y: StableRowIndex,
}

/// A visible cell of a line: its grapheme index, its text, and whether the
/// line soft-wraps after it.
pub struct Cell {
    pub grapheme_idx: usize,
    pub text: String,
    pub wrapped: bool,
}

/// A line of the screen, with the stable index of its row.
pub struct Line {
    pub stable_row: StableRowIndex,
    pub cells: Vec<Cell>,
}

/// The lines of a screen, top to bottom in physical order.
pub struct Screen {
    pub lines: Vec<Line>,
}

/// The lower case of a string, as `str::to_lowercase` gives it.
pub uninterp spec fn lower_of(s: Seq<char>) -> Seq<char>;

/// Whether `regex::Regex::new` accepts a pattern.
pub uninterp spec fn regex_is_valid(pattern: Seq<char>) -> bool;

/// The byte ranges of the matches that `regex::Regex::find_iter` yields
/// for a pattern over a haystack.
pub uninterp spec fn regex_match_spans(pattern: Seq<char>, haystack: Seq<char>) -> Seq<(int, int)>;

/// Relies on `str::to_lowercase`: the lower case of each character; the
/// result depends on the characters alone.
#[verifier::external_body]
fn lowercase(s: &str) -> (r: String)
    ensures
        r@ == lower_of(s@),
{
    s.to_lowercase()
}

/// Relies on `regex::Regex::new`, which fails on a pattern of invalid
/// syntax, and on `Regex::find_iter`, which yields the successive
/// non-overlapping matches in the haystack as byte ranges, each with
/// `start <= end`.  The two calls stand together because a compiled regex
/// is named here only through the pattern it came from.
#[verifier::external_body]
fn regex_find(pattern: &str, haystack: &str) -> (r: Option<Vec<(usize, usize)>>)
    ensures
        r is Some <==> regex_is_valid(pattern@),
        r matches Some(v) ==> spans_view(v@) == regex_match_spans(pattern@, haystack@),
        r matches Some(v) ==> forall|i: int|
            0 <= i < v@.len() ==> (#[trigger] v@[i]).0 <= v@[i].1 <= encode_utf8(haystack@).len(),
        r matches Some(v) ==> forall|i: int|
            0 <= i < v@.len() - 1 ==> (#[trigger] v@[i]).1 <= v@[i + 1].0,
{
    match regex::Regex::new(pattern) {
        Ok(re) => Some(re.find_iter(haystack).map(|m| (m.start(), m.end())).collect()),
        Err(_) => None,
    }
}

pub open spec fn is_regex(p: &Pattern) -> bool {
    p is Regex
}

pub open spec fn is_case_insensitive(p: &Pattern) -> bool {
    p is CaseInSensitiveString
}

/// The bytes that a cell adds to the haystack: its text, lower cased for a
/// case-insensitive pattern.
pub open spec fn cell_bytes(p: &Pattern, c: &Cell) -> Seq<u8> {
    if is_case_insensitive(p) {
        encode_utf8(lower_of(c.text@))
    } else {
        encode_utf8(c.text@)
    }
}

/// The bytes that a literal pattern looks for.
pub open spec fn needle_of(p: &Pattern) -> Seq<u8> {
    match p {
        Pattern::CaseSensitiveString(s) => encode_utf8(s@),
        Pattern::CaseInSensitiveString(s) => encode_utf8(lower_of(s@)),
        Pattern::Regex(_) => seq![],
    }
}

/// The bytes of a sequence of cells, one after the other.
pub open spec fn cells_bytes(p: &Pattern, cells: Seq<Cell>) -> Seq<u8>
    decreases cells.len(),
{
    if cells.len() == 0 {
        seq![]
    } else {
        cells_bytes(p, cells.drop_last()) + cell_bytes(p, &cells.last())
    }
}

/// The coordinate entries of a sequence of cells of row `row`, whose bytes
/// start at haystack offset `base`.
pub open spec fn cells_coords(p: &Pattern, row: StableRowIndex, base: int, cells: Seq<Cell>) -> Seq<Coord>
    decreases cells.len(),
{
    if cells.len() == 0 {
        seq![]
    } else {
        let pre = cells.drop_last();
        cells_coords(p, row, base, pre).push(
            Coord {
                byte_idx: (base + cells_bytes(p, pre).len()) as usize,
                grapheme_idx: cells.last().grapheme_idx,
                stable_row: row,
            },
        )
    }
}

/// A line continues into the next one when its last visible cell is wrapped.
pub open spec fn line_wrapped(line: &Line) -> bool {
    line.cells@.len() > 0 && line.cells@.last().wrapped
}

/// The byte ranges that a pattern matches in a haystack.
pub open spec fn pattern_spans(p: &Pattern, hay: Seq<u8>) -> Seq<(int, int)> {
    match p {
        Pattern::Regex(r) => if regex_is_valid(r@) {
            regex_match_spans(r@, decode_utf8(hay))
        } else {
            seq![]
        },
        _ => literal_spans(hay, needle_of(p)),
    }
}

/// The result for a matched byte range, through the coordinate table.
pub open spec fn span_result(coords: Seq<Coord>, span: (int, int)) -> SearchResult {
    let (start_x, start_y) = coord_of(coords, span.0);
    let (end_x, end_y) = coord_of(coords, span.1);
    SearchResult { start_x, start_y, end_x, end_y }
}

/// The results of matching a pattern in one haystack; nothing where the
/// haystack is empty or no cell stands in it.
pub open spec fn matches_in(p: &Pattern, hay: Seq<u8>, coords: Seq<Coord>) -> Seq<SearchResult> {
    if hay.len() == 0 || coords.len() == 0 {
        seq![]
    } else {
        pattern_spans(p, hay).map_values(|sp: (int, int)| span_result(coords, sp))
    }
}

/// What the scan holds after some lines: the pending haystack and its
/// coordinate table, and the results found so far.
pub struct ScanState {
    pub hay: Seq<u8>,
    pub coords: Seq<Coord>,
    pub results: Seq<SearchResult>,
}

/// The scan after one more line.  The line's cells are appended.  Where
/// the line does not wrap, a regex haystack gets a newline, and a literal
/// haystack is matched and emptied.
pub open spec fn scan_line(p: &Pattern, st: ScanState, line: &Line) -> ScanState {
    let hay = st.hay + cells_bytes(p, line.cells@);
    let coords = st.coords + cells_coords(p, line.stable_row, st.hay.len() as int, line.cells@);
    if line_wrapped(line) {
        ScanState { hay, coords, results: st.results }
    } else if is_regex(p) {
        ScanState { hay: hay.push(0x0Au8), coords, results: st.results }
    } else {
        ScanState { hay: seq![], coords: seq![], results: st.results + matches_in(p, hay, coords) }
    }
}

/// The scan after the first `n` lines.
pub open spec fn scan(p: &Pattern, lines: Seq<Line>, n: int) -> ScanState
    decreases n,
{
    if n <= 0 {
        ScanState { hay: seq![], coords: seq![], results: seq![] }
    } else {
        scan_line(p, scan(p, lines, n - 1), &lines[n - 1])
    }
}

/// All results of a search: those of the scan, then those of the haystack
/// left after the last line.
pub open spec fn search_results(p: &Pattern, lines: Seq<Line>) -> Seq<SearchResult> {
    let st = scan(p, lines, lines.len() as int);
    st.results + matches_in(p, st.hay, st.coords)
}

/// Every entry of the table begins within the haystack.
pub open spec fn coords_within(coords: Seq<Coord>, len: int) -> bool {
    forall|i: int| 0 <= i < coords.len() ==> (#[trigger] coords[i]).byte_idx <= len
}

proof fn lemma_encode_utf8_concat(a: Seq<char>, b: Seq<char>)
    ensures
        encode_utf8(a + b) == encode_utf8(a) + encode_utf8(b),
    decreases a.len(),
{
    if a.len() > 0 {
        lemma_encode_utf8_concat(a.drop_first(), b);
        assert((a + b).drop_first() =~= a.drop_first() + b);
        assert((a + b)[0] == a[0]);
        assert(encode_utf8(a + b) =~= encode_utf8(a) + encode_utf8(b));
    } else {
        assert(a + b =~= b);
    }
}

proof fn lemma_encode_newline()
    ensures
        encode_utf8("\n"@) == seq![0x0Au8],
{
    reveal_strlit("\n");
    let nl = "\n"@;
    assert(nl.len() == 1 && nl[0] == '\n');
    assert(nl.drop_first() =~= Seq::<char>::empty());
    assert(10u32 & 0x7Fu32 == 10u32) by (bit_vector);
    assert(encode_utf8(nl.drop_first()) == Seq::<u8>::empty());
    assert(encode_utf8(nl) =~= seq![0x0Au8]);
}

fn push_bytes(hay: &mut Vec<u8>, bytes: &[u8])
    ensures
        final(hay)@ == old(hay)@ + bytes@,
{
    let mut k: usize = 0;
    while k < bytes.len()
        invariant
            k <= bytes@.len(),
            hay@ == old(hay)@ + bytes@.subrange(0, k as int),
        decreases bytes@.len() - k,
    {
        hay.push(bytes[k]);
        k += 1;
        assert(hay@ =~= old(hay)@ + bytes@.subrange(0, k as int));
    }
    assert(bytes@.subrange(0, k as int) =~= bytes@);
}

/// Appends the cells of a line to the haystack, recording a coordinate
/// entry where each cell's text begins.
fn push_line(p: &Pattern, line: &Line, hay: &mut Vec<u8>, text: &mut String, coords: &mut Vec<Coord>)
    requires
        encode_utf8(old(text)@) == old(hay)@,
        coords_sorted(old(coords)@),
        coords_within(old(coords)@, old(hay)@.len() as int),
    ensures
        final(hay)@ == old(hay)@ + cells_bytes(p, line.cells@),
        final(coords)@ == old(coords)@ + cells_coords(p, line.stable_row, old(hay)@.len() as int, line.cells@),
        coords_sorted(final(coords)@),
        coords_within(final(coords)@, final(hay)@.len() as int),
        encode_utf8(final(text)@) == final(hay)@,
{
    let ghost base = hay@.len() as int;
    let ghost coords0 = coords@;
    let ghost cells = line.cells@;
    let mut ci: usize = 0;
    while ci < line.cells.len()
        invariant
            ci <= cells.len(),
            cells == line.cells@,
            base == old(hay)@.len(),
            coords0 == old(coords)@,
            hay@ == old(hay)@ + cells_bytes(p, cells.take(ci as int)),
            coords@ == coords0 + cells_coords(p, line.stable_row, base, cells.take(ci as int)),
            coords_sorted(coords@),
            coords_within(coords@, hay@.len() as int),
            encode_utf8(text@) == hay@,
        decreases cells.len() - ci,
    {
        let cell = &line.cells[ci];
        let ghost hay0 = hay@;
        let ghost cs0 = coords@;
        coords.push(Coord { byte_idx: hay.len(), grapheme_idx: cell.grapheme_idx, stable_row: line.stable_row });
        if let Pattern::CaseInSensitiveString(_) = p {
            let lower = lowercase(cell.text.as_str());
            let ghost t0 = text@;
            push_bytes(hay, lower.as_str().as_bytes());
            text.append(lower.as_str());
            proof {
                lemma_encode_utf8_concat(t0, lower@);
            }
        } else {
            let ghost t0 = text@;
            push_bytes(hay, cell.text.as_str().as_bytes());
            text.append(cell.text.as_str());
            proof {
                lemma_encode_utf8_concat(t0, cell.text@);
            }
        }
        ci += 1;
        proof {
            let t = cells.take(ci as int);
            assert(t.drop_last() =~= cells.take(ci - 1));
            assert(t.last() == cells[ci - 1]);
            assert(hay@ =~= old(hay)@ + cells_bytes(p, t));
            assert(coords@ =~= coords0 + cells_coords(p, line.stable_row, base, t));
            assert forall|i: int, j: int| 0 <= i <= j < coords@.len() implies #[trigger] coords@[i].byte_idx
                <= #[trigger] coords@[j].byte_idx by {
                if j < cs0.len() {
                    assert(cs0[i].byte_idx <= cs0[j].byte_idx);
                } else if i < cs0.len() {
                    assert(cs0[i].byte_idx <= hay0.len());
                }
            }
            assert forall|i: int| 0 <= i < coords@.len() implies (#[trigger] coords@[i]).byte_idx
                <= hay@.len() by {
                if i < cs0.len() {
                    assert(cs0[i].byte_idx <= hay0.len());
                }
            }
        }
    }
    assert(cells.take(ci as int) =~= cells);
}

/// The bytes that a literal pattern looks for; empty for a regex.
fn needle_bytes(p: &Pattern) -> (r: Vec<u8>)
    ensures
        r@ == needle_of(p),
{
    let mut r: Vec<u8> = Vec::new();
    match p {
        Pattern::CaseSensitiveString(s) => {
            push_bytes(&mut r, s.as_str().as_bytes());
        },
        Pattern::CaseInSensitiveString(s) => {
            let lower = lowercase(s.as_str());
            push_bytes(&mut r, lower.as_str().as_bytes());
        },
        Pattern::Regex(_) => {},
    }
    assert(r@ =~= needle_of(p));
    r
}

proof fn lemma_span_starts_chain(sp: Seq<(int, int)>, i: int, j: int)
    requires
        forall|k: int| 0 <= k < sp.len() ==> (#[trigger] sp[k]).0 <= sp[k].1,
        forall|k: int| 0 <= k < sp.len() - 1 ==> (#[trigger] sp[k]).1 <= sp[k + 1].0,
        0 <= i <= j < sp.len(),
    ensures
        sp[i].0 <= sp[j].0,
    decreases j - i,
{
    if i < j {
        lemma_span_starts_chain(sp, i, j - 1);
        assert(sp[j - 1].0 <= sp[j - 1].1);
    }
}

/// Spans whose starts never decrease give results in scan order, through
/// a table in scan order.
proof fn lemma_results_follow_spans(coords: Seq<Coord>, sp: Seq<(int, int)>)
    requires
        coords.len() > 0,
        coords_ordered(coords),
        forall|i: int, j: int| 0 <= i <= j < sp.len() ==> (#[trigger] sp[i]).0 <= (#[trigger] sp[j]).0,
    ensures
        results_ordered(sp.map_values(|s: (int, int)| span_result(coords, s))),
{
    let r = sp.map_values(|s: (int, int)| span_result(coords, s));
    assert forall|i: int, j: int| 0 <= i < j < r.len() implies pos_le(
        #[trigger] r[i].start_x,
        r[i].start_y,
        #[trigger] r[j].start_x,
        r[j].start_y,
    ) by {
        assert(sp[i].0 <= sp[j].0);
        lemma_last_at_or_before_monotone(coords, sp[i].0, sp[j].0);
        lemma_last_at_or_before_bounds(coords, sp[i].0);
        lemma_last_at_or_before_bounds(coords, sp[j].0);
        let ki = last_at_or_before(coords, sp[i].0);
        let kj = last_at_or_before(coords, sp[j].0);
        assert(coord_le(coords[ki], coords[kj]));
    }
}

/// Matches the pattern in one haystack and appends a result for each match.
fn collect_matches(
    results: &mut Vec<SearchResult>,
    p: &Pattern,
    needle: &Vec<u8>,
    hay: &Vec<u8>,
    text: &String,
    coords: &Vec<Coord>,
)
    requires
        encode_utf8(text@) == hay@,
        needle@ == needle_of(p),
        coords_sorted(coords@),
    ensures
        final(results)@ == old(results)@ + matches_in(p, hay@, coords@),
        is_regex(p) && coords_ordered(coords@) ==> results_ordered(matches_in(p, hay@, coords@)),
{
    if hay.len() == 0 || coords.len() == 0 {
        assert(old(results)@ + matches_in(p, hay@, coords@) =~= old(results)@);
        return;
    }
    let spans = match p {
        Pattern::Regex(r) => match regex_find(r.as_str(), text.as_str()) {
            Some(v) => {
                proof {
                    encode_utf8_decode_utf8(text@);
                    let sp = spans_view(v@);
                    assert forall|k: int| 0 <= k < sp.len() implies (#[trigger] sp[k]).0 <= sp[k].1 by {
                        assert(v@[k].0 <= v@[k].1);
                    }
                    assert forall|k: int| 0 <= k < sp.len() - 1 implies (#[trigger] sp[k]).1
                        <= sp[k + 1].0 by {
                        assert(v@[k].1 <= v@[k + 1].0);
                    }
                    assert forall|i: int, j: int| 0 <= i <= j < sp.len() implies (
                    #[trigger] sp[i]).0 <= (#[trigger] sp[j]).0 by {
                        lemma_span_starts_chain(sp, i, j);
                    }
                    if coords_ordered(coords@) {
                        lemma_results_follow_spans(coords@, sp);
                    }
                }
                v
            },
            None => {
                proof {
                    encode_utf8_decode_utf8(text@);
                }
                assert(matches_in(p, hay@, coords@) =~= Seq::<SearchResult>::empty());
                Vec::new()
            },
        },
        _ => find_literal(hay, needle),
    };
    assert(spans_view(spans@) == pattern_spans(p, hay@));
    let ghost found = pattern_spans(p, hay@).map_values(|sp: (int, int)| span_result(coords@, sp));
    let mut k: usize = 0;
    while k < spans.len()
        invariant
            k <= spans@.len(),
            coords@.len() > 0,
            coords_sorted(coords@),
            spans_view(spans@) == pattern_spans(p, hay@),
            found == pattern_spans(p, hay@).map_values(|sp: (int, int)| span_result(coords@, sp)),
            results@ == old(results)@ + found.take(k as int),
        decreases spans@.len() - k,
    {
        let (s, e) = spans[k];
        let start = haystack_idx_to_coord(s, coords);
        let end = haystack_idx_to_coord(e, coords);
        if let (Some((start_x, start_y)), Some((end_x, end_y))) = (start, end) {
            results.push(SearchResult { start_x, start_y, end_x, end_y });
        }
        k += 1;
        assert(spans_view(spans@)[k - 1] == (s as int, e as int));
        assert(found.take(k as int) =~= found.take(k - 1).push(found[k - 1]));
    }
    assert(found.take(k as int) =~= found);
}

/// Finds every match of a pattern on a screen, in scan order.
///
/// Literal patterns are matched within each paragraph, a run of lines that
/// ends at a line that does not wrap; a case-insensitive one against the
/// lower-cased text.  A regex is matched once over the whole screen, with a
/// newline after each paragraph; one that does not compile matches nothing.
pub fn search(screen: &Screen, pattern: &Pattern) -> (r: Vec<SearchResult>)
    ensures
        r@ == search_results(pattern, screen.lines@),
        screen_well_formed(screen.lines@) ==> results_ordered(r@),
{
    let needle = needle_bytes(pattern);
    let mut results: Vec<SearchResult> = Vec::new();
    let mut hay: Vec<u8> = Vec::new();
    // The haystack as text, which the regex matches.
    let mut text = String::new();
    let mut coords: Vec<Coord> = Vec::new();
    let ghost lines = screen.lines@;
    let mut li: usize = 0;
    while li < screen.lines.len()
        invariant
            li <= lines.len(),
            lines == screen.lines@,
            needle@ == needle_of(pattern),
            scan(pattern, lines, li as int) == (ScanState { hay: hay@, coords: coords@, results: results@ }),
            coords_sorted(coords@),
            coords_within(coords@, hay@.len() as int),
            encode_utf8(text@) == hay@,
        decreases lines.len() - li,
    {
        let line = &screen.lines[li];
        push_line(pattern, line, &mut hay, &mut text, &mut coords);
        let wrapped = line.cells.len() > 0 && line.cells[line.cells.len() - 1].wrapped;
        if !wrapped {
            if let Pattern::Regex(_) = pattern {
                let ghost t0 = text@;
                hay.push(0x0Au8);
                text.append("\n");
                proof {
                    reveal_strlit("\n");
                    lemma_encode_utf8_concat(t0, "\n"@);
                    lemma_encode_newline();
                }
                proof {
                    assert forall|i: int| 0 <= i < coords@.len() implies (#[trigger] coords@[i]).byte_idx
                        <= hay@.len() by {
                        assert(coords@[i].byte_idx <= hay@.len() - 1);
                    }
                }
            } else {
                collect_matches(&mut results, pattern, &needle, &hay, &text, &coords);
                hay.clear();
                text = String::new();
                coords.clear();
            }
        }
        li += 1;
        proof {
            let st = scan(pattern, lines, li - 1);
            assert(scan(pattern, lines, li as int) == scan_line(pattern, st, &lines[li - 1]));
            assert(hay@ == scan(pattern, lines, li as int).hay);
            assert(coords@ == scan(pattern, lines, li as int).coords);
            assert(results@ == scan(pattern, lines, li as int).results);
        }
    }
    collect_matches(&mut results, pattern, &needle, &hay, &text, &coords);
    proof {
        if screen_well_formed(lines) {
            if is_regex(pattern) {
                lemma_regex_scan_has_no_results(pattern, lines, lines.len() as int);
                lemma_scan_in_order(pattern, lines, lines.len() as int);
                assert(results@ =~= matches_in(pattern, hay@, coords@));
            } else {
                law_literal_results_in_scan_order(pattern, lines);
            }
        }
    }
    results
}

/// Coordinate resolution: an offset strictly between the offsets of two
/// neighbouring entries of a sorted table resolves to the earlier of them,
/// and an offset at or beyond the last entry's resolves to the last entry.
pub proof fn law_coord_resolution(coords: Seq<Coord>, k: int, idx: int)
    requires
        coords_sorted(coords),
        0 <= k < coords.len(),
    ensures
        k + 1 < coords.len() && coords[k].byte_idx < idx < coords[k + 1].byte_idx ==> coord_of(
            coords,
            idx,
        ) == (coords[k].grapheme_idx, coords[k].stable_row),
        k == coords.len() - 1 && coords[k].byte_idx <= idx ==> coord_of(coords, idx) == (
            coords[k].grapheme_idx,
            coords[k].stable_row,
        ),
{
    if k + 1 < coords.len() && coords[k].byte_idx < idx < coords[k + 1].byte_idx {
        lemma_last_at_or_before_unique(coords, idx, k);
    }
    if k == coords.len() - 1 && coords[k].byte_idx <= idx {
        lemma_last_at_or_before_unique(coords, idx, k);
    }
}

proof fn lemma_literal_spans_sound(hay: Seq<u8>, needle: Seq<u8>, j: int)
    ensures
        forall|k: int|
            0 <= k < literal_spans_from(hay, needle, j).len() ==> {
                let sp = #[trigger] literal_spans_from(hay, needle, j)[k];
                &&& j <= sp.0
                &&& sp.1 == sp.0 + needle.len()
                &&& occurs_at(hay, needle, sp.0)
            },
    decreases hay.len() + 1 - j,
{
    if j < 0 || j > hay.len() {
    } else if occurs_at(hay, needle, j) {
        let next = if needle.len() == 0 { j + 1 } else { j + needle.len() };
        lemma_literal_spans_sound(hay, needle, next);
        let rest = literal_spans_from(hay, needle, next);
        let spans = literal_spans_from(hay, needle, j);
        assert(spans == seq![(j, j + needle.len())] + rest);
        assert forall|k: int| 0 <= k < spans.len() implies {
            let sp = #[trigger] spans[k];
            &&& j <= sp.0
            &&& sp.1 == sp.0 + needle.len()
            &&& occurs_at(hay, needle, sp.0)
        } by {
            if k > 0 {
                assert(spans[k] == rest[k - 1]);
            }
        }
    } else {
        lemma_literal_spans_sound(hay, needle, j + 1);
        assert(literal_spans_from(hay, needle, j) == literal_spans_from(hay, needle, j + 1));
    }
}

/// Each match of a literal is the needle itself: the haystack bytes of
/// every span found equal the needle.
pub proof fn law_literal_match_is_needle(hay: Seq<u8>, needle: Seq<u8>, k: int)
    requires
        0 <= k < literal_spans(hay, needle).len(),
    ensures
        0 <= literal_spans(hay, needle)[k].0 <= literal_spans(hay, needle)[k].1 <= hay.len(),
        hay.subrange(literal_spans(hay, needle)[k].0, literal_spans(hay, needle)[k].1) == needle,
{
    lemma_literal_spans_sound(hay, needle, 0);
    let sp = literal_spans(hay, needle)[k];
    assert(occurs_at(hay, needle, sp.0));
}

proof fn lemma_literal_spans_complete(hay: Seq<u8>, needle: Seq<u8>, j: int, i: int)
    requires
        needle.len() > 0,
        0 <= j <= i,
        occurs_at(hay, needle, i),
    ensures
        exists|k: int|
            0 <= k < literal_spans_from(hay, needle, j).len() && (#[trigger] literal_spans_from(
                hay,
                needle,
                j,
            )[k]).0 <= i < literal_spans_from(hay, needle, j)[k].1,
    decreases i - j,
{
    let spans = literal_spans_from(hay, needle, j);
    if occurs_at(hay, needle, j) {
        let rest = literal_spans_from(hay, needle, j + needle.len());
        assert(spans == seq![(j, j + needle.len())] + rest);
        if i < j + needle.len() {
            assert(spans[0].0 <= i < spans[0].1);
        } else {
            lemma_literal_spans_complete(hay, needle, j + needle.len(), i);
            let k = choose|k: int| 0 <= k < rest.len() && (#[trigger] rest[k]).0 <= i < rest[k].1;
            assert(spans[k + 1] == rest[k]);
        }
    } else {
        assert(j != i);
        lemma_literal_spans_complete(hay, needle, j + 1, i);
    }
}

/// Every occurrence of a non-empty literal is found or lies within a match
/// found before it: matches are leftmost and do not overlap.
pub proof fn law_literal_occurrence_covered(hay: Seq<u8>, needle: Seq<u8>, i: int)
    requires
        needle.len() > 0,
        occurs_at(hay, needle, i),
    ensures
        exists|k: int|
            0 <= k < literal_spans(hay, needle).len() && (#[trigger] literal_spans(hay, needle)[k]).0
                <= i < literal_spans(hay, needle)[k].1,
{
    lemma_literal_spans_complete(hay, needle, 0, i);
    let spans = literal_spans_from(hay, needle, 0);
    let k = choose|k: int| 0 <= k < spans.len() && (#[trigger] spans[k]).0 <= i < spans[k].1;
    assert(literal_spans(hay, needle)[k] == spans[k]);
}

proof fn lemma_regex_scan_has_no_results(p: &Pattern, lines: Seq<Line>, n: int)
    requires
        is_regex(p),
    ensures
        scan(p, lines, n).results == Seq::<SearchResult>::empty(),
    decreases n,
{
    if n > 0 {
        lemma_regex_scan_has_no_results(p, lines, n - 1);
    }
}

/// A regex of invalid syntax finds nothing on any screen, and is no error.
pub proof fn law_invalid_regex_finds_nothing(lines: Seq<Line>, r: String)
    requires
        !regex_is_valid(r@),
    ensures
        search_results(&Pattern::Regex(r), lines) == Seq::<SearchResult>::empty(),
{
    let p = Pattern::Regex(r);
    lemma_regex_scan_has_no_results(&p, lines, lines.len() as int);
    let st = scan(&p, lines, lines.len() as int);
    assert(matches_in(&p, st.hay, st.coords) =~= Seq::<SearchResult>::empty());
    assert(search_results(&p, lines) =~= Seq::<SearchResult>::empty());
}

/// Whether position `(ax, ay)` comes at or before `(bx, by)`: by stable row,
/// then by grapheme index.
pub open spec fn pos_le(ax: usize, ay: StableRowIndex, bx: usize, by: StableRowIndex) -> bool {
    ay < by || (ay == by && ax <= bx)
}

pub open spec fn coord_le(a: Coord, b: Coord) -> bool {
    pos_le(a.grapheme_idx, a.stable_row, b.grapheme_idx, b.stable_row)
}

/// Whether the results start in scan order.
pub open spec fn results_ordered(r: Seq<SearchResult>) -> bool {
    forall|i: int, j: int|
        0 <= i < j < r.len() ==> pos_le(
            #[trigger] r[i].start_x,
            r[i].start_y,
            #[trigger] r[j].start_x,
            r[j].start_y,
        )
}

/// A screen whose stable rows grow from line to line, and whose cells'
/// grapheme indexes grow from left to right.
pub open spec fn screen_well_formed(lines: Seq<Line>) -> bool {
    &&& forall|i: int, j: int|
        0 <= i < j < lines.len() ==> #[trigger] lines[i].stable_row < #[trigger] lines[j].stable_row
    &&& forall|m: int, a: int, b: int|
        0 <= m < lines.len() && 0 <= a < b < lines[m].cells@.len() ==> (
        #[trigger] lines[m].cells@[a]).grapheme_idx < (#[trigger] lines[m].cells@[b]).grapheme_idx
}

proof fn lemma_cells_coords_entries(p: &Pattern, row: StableRowIndex, base: int, cells: Seq<Cell>)
    ensures
        cells_coords(p, row, base, cells).len() == cells.len(),
        forall|k: int|
            0 <= k < cells.len() ==> (#[trigger] cells_coords(p, row, base, cells)[k]).grapheme_idx
                == cells[k].grapheme_idx && cells_coords(p, row, base, cells)[k].stable_row == row,
    decreases cells.len(),
{
    if cells.len() > 0 {
        let pre = cells.drop_last();
        lemma_cells_coords_entries(p, row, base, pre);
        assert forall|k: int| 0 <= k < cells.len() implies (#[trigger] cells_coords(
            p,
            row,
            base,
            cells,
        )[k]).grapheme_idx == cells[k].grapheme_idx && cells_coords(p, row, base, cells)[k].stable_row
            == row by {
            if k < cells.len() - 1 {
                assert(cells_coords(p, row, base, cells)[k] == cells_coords(p, row, base, pre)[k]);
                assert(pre[k] == cells[k]);
            }
        }
    }
}

proof fn lemma_literal_spans_increasing(hay: Seq<u8>, needle: Seq<u8>, j: int)
    ensures
        forall|a: int, b: int|
            0 <= a < b < literal_spans_from(hay, needle, j).len() ==> (
            #[trigger] literal_spans_from(hay, needle, j)[a]).0 < (
            #[trigger] literal_spans_from(hay, needle, j)[b]).0,
    decreases hay.len() + 1 - j,
{
    lemma_literal_spans_sound(hay, needle, j);
    if j < 0 || j > hay.len() {
    } else if occurs_at(hay, needle, j) {
        let next = if needle.len() == 0 { j + 1 } else { j + needle.len() };
        lemma_literal_spans_increasing(hay, needle, next);
        lemma_literal_spans_sound(hay, needle, next);
        let rest = literal_spans_from(hay, needle, next);
        let spans = literal_spans_from(hay, needle, j);
        assert(spans == seq![(j, j + needle.len())] + rest);
        assert forall|a: int, b: int| 0 <= a < b < spans.len() implies (#[trigger] spans[a]).0 < (
        #[trigger] spans[b]).0 by {
            assert(spans[b] == rest[b - 1]);
            if a > 0 {
                assert(spans[a] == rest[a - 1]);
            }
        }
    } else {
        lemma_literal_spans_increasing(hay, needle, j + 1);
        assert(literal_spans_from(hay, needle, j) == literal_spans_from(hay, needle, j + 1));
    }
}

proof fn lemma_last_at_or_before_monotone(coords: Seq<Coord>, i1: int, i2: int)
    requires
        i1 <= i2,
    ensures
        last_at_or_before(coords, i1) <= last_at_or_before(coords, i2),
    decreases coords.len(),
{
    if coords.len() > 0 {
        if coords.last().byte_idx <= i1 {
        } else if coords.last().byte_idx <= i2 {
            if coords.len() > 1 {
                lemma_last_at_or_before_bounds(coords.drop_last(), i1);
            } else {
                assert(last_at_or_before(coords.drop_last(), i1) == 0);
            }
        } else {
            lemma_last_at_or_before_monotone(coords.drop_last(), i1, i2);
        }
    }
}

/// The table's entries are in scan order.
pub open spec fn coords_ordered(c: Seq<Coord>) -> bool {
    forall|i: int, j: int| 0 <= i <= j < c.len() ==> coord_le(#[trigger] c[i], #[trigger] c[j])
}

/// The results of one literal haystack start in order, each at an entry of its table.
proof fn lemma_matches_in_ordered(p: &Pattern, hay: Seq<u8>, coords: Seq<Coord>)
    requires
        !is_regex(p),
        coords_ordered(coords),
    ensures
        results_ordered(matches_in(p, hay, coords)),
        forall|i: int|
            0 <= i < matches_in(p, hay, coords).len() ==> pos_le(
                coords[0].grapheme_idx,
                coords[0].stable_row,
                (#[trigger] matches_in(p, hay, coords)[i]).start_x,
                matches_in(p, hay, coords)[i].start_y,
            ) && pos_le(
                matches_in(p, hay, coords)[i].start_x,
                matches_in(p, hay, coords)[i].start_y,
                coords.last().grapheme_idx,
                coords.last().stable_row,
            ),
{
    let r = matches_in(p, hay, coords);
    if hay.len() == 0 || coords.len() == 0 {
        assert(r.len() == 0);
    } else {
        let spans = literal_spans(hay, needle_of(p));
        assert(pattern_spans(p, hay) == spans);
        lemma_literal_spans_increasing(hay, needle_of(p), 0);
        assert forall|i: int, j: int| 0 <= i < j < r.len() implies pos_le(
            #[trigger] r[i].start_x,
            r[i].start_y,
            #[trigger] r[j].start_x,
            r[j].start_y,
        ) by {
            assert(spans[i].0 < spans[j].0);
            lemma_last_at_or_before_monotone(coords, spans[i].0, spans[j].0);
            lemma_last_at_or_before_bounds(coords, spans[i].0);
            lemma_last_at_or_before_bounds(coords, spans[j].0);
            let ki = last_at_or_before(coords, spans[i].0);
            let kj = last_at_or_before(coords, spans[j].0);
            assert(coord_le(coords[ki], coords[kj]));
        }
        assert forall|i: int| 0 <= i < r.len() implies pos_le(
            coords[0].grapheme_idx,
            coords[0].stable_row,
            (#[trigger] r[i]).start_x,
            r[i].start_y,
        ) && pos_le(r[i].start_x, r[i].start_y, coords.last().grapheme_idx, coords.last().stable_row) by {
            lemma_last_at_or_before_bounds(coords, spans[i].0);
            let k = last_at_or_before(coords, spans[i].0);
            assert(coord_le(coords[0], coords[k]));
            assert(coord_le(coords[k], coords[coords.len() - 1]));
        }
    }
}

/// What holds of a literal scan of a well-formed screen after `n` lines.
spec fn scan_in_order(lines: Seq<Line>, n: int, st: ScanState) -> bool {
    &&& coords_ordered(st.coords)
    &&& results_ordered(st.results)
    &&& forall|i: int, k: int|
        0 <= i < st.results.len() && 0 <= k < st.coords.len() ==> pos_le(
            #[trigger] st.results[i].start_x,
            st.results[i].start_y,
            (#[trigger] st.coords[k]).grapheme_idx,
            st.coords[k].stable_row,
        )
    &&& forall|k: int, m: int|
        0 <= k < st.coords.len() && n <= m < lines.len() ==> (#[trigger] st.coords[k]).stable_row
            < (#[trigger] lines[m]).stable_row
    &&& forall|i: int, m: int|
        0 <= i < st.results.len() && n <= m < lines.len() ==> (#[trigger] st.results[i]).start_y
            < (#[trigger] lines[m]).stable_row
}

/// Appending the results of the pending haystack keeps the results in order.
proof fn lemma_flush_in_order(p: &Pattern, lines: Seq<Line>, n: int, st: ScanState)
    requires
        !is_regex(p),
        scan_in_order(lines, n, st),
    ensures
        results_ordered(st.results + matches_in(p, st.hay, st.coords)),
        forall|i: int, m: int|
            0 <= i < (st.results + matches_in(p, st.hay, st.coords)).len() && n <= m < lines.len()
                ==> (#[trigger] (st.results + matches_in(p, st.hay, st.coords))[i]).start_y < (
            #[trigger] lines[m]).stable_row,
{
    let ms = matches_in(p, st.hay, st.coords);
    let all = st.results + ms;
    lemma_matches_in_ordered(p, st.hay, st.coords);
    let r0 = st.results;
    let c = st.coords;
    assert forall|i: int, j: int| 0 <= i < j < all.len() implies pos_le(
        #[trigger] all[i].start_x,
        all[i].start_y,
        #[trigger] all[j].start_x,
        all[j].start_y,
    ) by {
        if j < r0.len() {
            assert(all[i] == r0[i] && all[j] == r0[j]);
        } else if i < r0.len() {
            assert(all[i] == r0[i] && all[j] == ms[j - r0.len()]);
            assert(pos_le(r0[i].start_x, r0[i].start_y, c[0].grapheme_idx, c[0].stable_row));
        } else {
            assert(all[i] == ms[i - r0.len()] && all[j] == ms[j - r0.len()]);
        }
    }
    assert forall|i: int, m: int| 0 <= i < all.len() && n <= m < lines.len() implies (
    #[trigger] all[i]).start_y < (#[trigger] lines[m]).stable_row by {
        if i < r0.len() {
            assert(all[i] == r0[i]);
        } else {
            assert(all[i] == ms[i - r0.len()]);
            assert(c[c.len() - 1].stable_row < lines[m].stable_row);
        }
    }
}

proof fn lemma_scan_in_order(p: &Pattern, lines: Seq<Line>, n: int)
    requires
        screen_well_formed(lines),
        0 <= n <= lines.len(),
    ensures
        scan_in_order(lines, n, scan(p, lines, n)),
    decreases n,
{
    if n > 0 {
        lemma_scan_in_order(p, lines, n - 1);
        let st = scan(p, lines, n - 1);
        let line = lines[n - 1];
        let lc = cells_coords(p, line.stable_row, st.hay.len() as int, line.cells@);
        lemma_cells_coords_entries(p, line.stable_row, st.hay.len() as int, line.cells@);
        let coords = st.coords + lc;
        let old_n = st.coords.len();
        assert forall|i: int, j: int| 0 <= i <= j < coords.len() implies coord_le(
            #[trigger] coords[i],
            #[trigger] coords[j],
        ) by {
            if j < old_n {
                assert(coords[i] == st.coords[i] && coords[j] == st.coords[j]);
            } else if i < old_n {
                assert(coords[i] == st.coords[i] && coords[j] == lc[j - old_n]);
                assert(st.coords[i].stable_row < lines[n - 1].stable_row);
            } else {
                assert(coords[i] == lc[i - old_n] && coords[j] == lc[j - old_n]);
                if i < j {
                    assert(line.cells@[i - old_n].grapheme_idx < line.cells@[j - old_n].grapheme_idx);
                }
            }
        }
        assert forall|k: int, m: int| 0 <= k < coords.len() && n <= m < lines.len() implies (
        #[trigger] coords[k]).stable_row < (#[trigger] lines[m]).stable_row by {
            if k < old_n {
                assert(coords[k] == st.coords[k]);
            } else {
                assert(coords[k] == lc[k - old_n]);
                assert(lines[n - 1].stable_row < lines[m].stable_row);
            }
        }
        let hay = st.hay + cells_bytes(p, line.cells@);
        let mid = ScanState { hay, coords, results: st.results };
        assert forall|i: int, k: int| 0 <= i < mid.results.len() && 0 <= k < mid.coords.len() implies pos_le(
            #[trigger] mid.results[i].start_x,
            mid.results[i].start_y,
            (#[trigger] mid.coords[k]).grapheme_idx,
            mid.coords[k].stable_row,
        ) by {
            if k < old_n {
                assert(coords[k] == st.coords[k]);
            } else {
                assert(coords[k] == lc[k - old_n]);
                assert(st.results[i].start_y < lines[n - 1].stable_row);
            }
        }
        assert(scan_in_order(lines, n, mid));
        if line_wrapped(&line) {
            assert(scan(p, lines, n) == mid);
        } else if is_regex(p) {
            let next = scan(p, lines, n);
            assert(next.coords == mid.coords && next.results == mid.results);
        } else {
            lemma_flush_in_order(p, lines, n, mid);
            let next = scan(p, lines, n);
            assert(next.results == mid.results + matches_in(p, hay, coords));
        }
    }
}

/// The results of a literal search of a well-formed screen come in scan
/// order: by stable row, then by grapheme index of their start.
pub proof fn law_literal_results_in_scan_order(p: &Pattern, lines: Seq<Line>)
    requires
        !is_regex(p),
        screen_well_formed(lines),
    ensures
        results_ordered(search_results(p, lines)),
{
    lemma_scan_in_order(p, lines, lines.len() as int);
    lemma_flush_in_order(p, lines, lines.len() as int, scan(p, lines, lines.len() as int));
}

/// Coordinate resolution as the results show it: where a match starts
/// (or ends) strictly between the offsets of two neighbouring cells, its
/// start (or end) is the earlier cell; where it starts (or ends) at or
/// beyond the last cell's offset, it is the last cell.
pub proof fn law_result_coords(p: &Pattern, hay: Seq<u8>, coords: Seq<Coord>, i: int, k: int)
    requires
        coords_sorted(coords),
        0 <= k < coords.len(),
        0 <= i < matches_in(p, hay, coords).len(),
    ensures
        ({
            let sp = pattern_spans(p, hay)[i];
            let r = matches_in(p, hay, coords)[i];
            let c = coords[k];
            &&& k + 1 < coords.len() && c.byte_idx < sp.0 < coords[k + 1].byte_idx ==> (r.start_x, r.start_y)
                == (c.grapheme_idx, c.stable_row)
            &&& k + 1 < coords.len() && c.byte_idx < sp.1 < coords[k + 1].byte_idx ==> (r.end_x, r.end_y)
                == (c.grapheme_idx, c.stable_row)
            &&& k == coords.len() - 1 && c.byte_idx <= sp.0 ==> (r.start_x, r.start_y) == (
                c.grapheme_idx,
                c.stable_row,
            )
            &&& k == coords.len() - 1 && c.byte_idx <= sp.1 ==> (r.end_x, r.end_y) == (
                c.grapheme_idx,
                c.stable_row,
            )
        }),
{
    let sp = pattern_spans(p, hay)[i];
    assert(matches_in(p, hay, coords)[i] == span_result(coords, sp));
    law_coord_resolution(coords, k, sp.0);
    law_coord_resolution(coords, k, sp.1);
}

} // verus!
