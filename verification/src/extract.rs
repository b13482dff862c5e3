use vstd::prelude::*;
use vstd::string::StringExecFns;

use crate::record::{MittyAntennaError, MittyUpdate, UpdateView};
use crate::text::{spec_trim, trim_string};

verus! {

/// One cell-like element of a container: its text nodes, in document order.
#[derive(Debug)]
pub struct Cell {
    pub texts: Vec<String>,
}

impl DeepView for Cell {
    type V = Seq<Seq<char>>;

    open spec fn deep_view(&self) -> Seq<Seq<char>> {
        self.texts.deep_view()
    }
}

/// One table-like container of the page: its cells, in document order.
#[derive(Debug)]
pub struct Table {
    pub cells: Vec<Cell>,
}

impl DeepView for Table {
    type V = Seq<Seq<Seq<char>>>;

    open spec fn deep_view(&self) -> Seq<Seq<Seq<char>>> {
        self.cells.deep_view()
    }
}

/// The fixed header text that marks the anchor cell.
pub open spec fn anchor_header() -> Seq<char> {
    "DD/MM HH:MM"@
}

/// The fixed body text that marks the anchor cell.
pub open spec fn anchor_marker() -> Seq<char> {
    "Scroll to the right to read!"@
}

/// The body that signals the feed is mid-rewrite; it truncates extraction
/// without an error.
pub open spec fn sentinel_body() -> Seq<char> {
    "[CORRUPTED DATA] [RESTARTING...]"@
}

/// A cell decodes when it has at least the three positional text nodes:
/// title, separator, body.
pub open spec fn cell_decodes(texts: Seq<Seq<char>>) -> bool {
    texts.len() >= 3
}

/// The entry a decodable cell stands for: first node trimmed as the title,
/// third node trimmed as the body; the separator node is ignored.
pub open spec fn decode_view(texts: Seq<Seq<char>>) -> UpdateView
    recommends
        cell_decodes(texts),
{
    UpdateView { title: spec_trim(texts[0]), body: spec_trim(texts[2]) }
}

/// Whether a cell is the anchor: three text nodes whose trimmed first and
/// third equal the fixed markers.
pub open spec fn is_anchor(texts: Seq<Seq<char>>) -> bool {
    cell_decodes(texts) && spec_trim(texts[0]) == anchor_header() && spec_trim(texts[2])
        == anchor_marker()
}

/// The records yielded by the cells after the anchor: undecodable cells are
/// dropped, a sentinel body stops the scan, every other decodable cell is a
/// record.
pub open spec fn scan_records(cells: Seq<Seq<Seq<char>>>) -> Seq<UpdateView>
    decreases cells.len(),
{
    if cells.len() == 0 {
        Seq::empty()
    } else if !cell_decodes(cells[0]) {
        scan_records(cells.drop_first())
    } else if decode_view(cells[0]).body == sentinel_body() {
        Seq::empty()
    } else {
        seq![decode_view(cells[0])] + scan_records(cells.drop_first())
    }
}

/// Whether the scan after the anchor hits the sentinel body.
pub open spec fn scan_stopped(cells: Seq<Seq<Seq<char>>>) -> bool
    decreases cells.len(),
{
    if cells.len() == 0 {
        false
    } else if !cell_decodes(cells[0]) {
        scan_stopped(cells.drop_first())
    } else if decode_view(cells[0]).body == sentinel_body() {
        true
    } else {
        scan_stopped(cells.drop_first())
    }
}

/// The records a container yields: those scanned after its first anchor
/// cell, or none when it has no anchor.
pub open spec fn table_records(cells: Seq<Seq<Seq<char>>>) -> Seq<UpdateView>
    decreases cells.len(),
{
    if cells.len() == 0 {
        Seq::empty()
    } else if is_anchor(cells[0]) {
        scan_records(cells.drop_first())
    } else {
        table_records(cells.drop_first())
    }
}

/// Whether a container's scan was cut short by the sentinel body.
pub open spec fn table_stopped(cells: Seq<Seq<Seq<char>>>) -> bool
    decreases cells.len(),
{
    if cells.len() == 0 {
        false
    } else if is_anchor(cells[0]) {
        scan_stopped(cells.drop_first())
    } else {
        table_stopped(cells.drop_first())
    }
}

/// What extraction yields on a whole document: the records of the first
/// container that either yields a record or is stopped by the sentinel;
/// `None` when no container does either, which is the parse error.
pub open spec fn doc_extraction(tables: Seq<Seq<Seq<Seq<char>>>>) -> Option<Seq<UpdateView>>
    decreases tables.len(),
{
    if tables.len() == 0 {
        None
    } else if table_records(tables[0]).len() > 0 || table_stopped(tables[0]) {
        Some(table_records(tables[0]))
    } else {
        doc_extraction(tables.drop_first())
    }
}

pub(crate) proof fn lemma_skip_succ<A>(s: Seq<A>, i: int)
    requires
        0 <= i < s.len(),
    ensures
        s.skip(i).len() == s.len() - i,
        s.skip(i)[0] == s[i],
        s.skip(i).drop_first() =~= s.skip(i + 1),
{
}

/// Whether this cell is the anchor that marks the start of the update list.
pub fn is_anchor_cell(cell: &Cell) -> (r: bool)
    ensures
        r == is_anchor(cell.deep_view()),
{
    if cell.texts.len() < 3 {
        return false;
    }
    let header = trim_string(&cell.texts[0]);
    if !(header == String::from_str("DD/MM HH:MM")) {
        return false;
    }
    let marker = trim_string(&cell.texts[2]);
    marker == String::from_str("Scroll to the right to read!")
}

/// Decode a cell into an entry: at least three text nodes, first trimmed as
/// the title, third trimmed as the body. A cell with fewer nodes yields
/// `None` and is silently dropped by the scan.
pub fn decode_cell(cell: &Cell) -> (r: Option<MittyUpdate>)
    ensures
        match r {
            Some(u) => cell_decodes(cell.deep_view()) && u.deep_view() == decode_view(
                cell.deep_view(),
            ),
            None => !cell_decodes(cell.deep_view()),
        },
{
    if cell.texts.len() < 3 {
        return None;
    }
    let title = trim_string(&cell.texts[0]);
    let body = trim_string(&cell.texts[2]);
    let u = MittyUpdate { title, body };
    proof {
        assert(u.deep_view() =~= decode_view(cell.deep_view()));
    }
    Some(u)
}

/// Scan one container: the records after its first anchor cell, and whether
/// the sentinel body cut the scan short.
pub fn table_extract(tbl: &Table) -> (r: (Vec<MittyUpdate>, bool))
    ensures
        r.0.deep_view() == table_records(tbl.deep_view()),
        r.1 == table_stopped(tbl.deep_view()),
{
    let ghost cv: Seq<Seq<Seq<char>>> = tbl.deep_view();
    let n = tbl.cells.len();
    let mut i: usize = 0;
    let mut found = false;
    proof {
        assert(cv.skip(0) =~= cv);
    }
    while i < n && !found
        invariant
            i <= n,
            n == tbl.cells.len(),
            cv == tbl.deep_view(),
            found ==> i < n && is_anchor(cv[i as int]),
            !found ==> table_records(cv) == table_records(cv.skip(i as int)) && table_stopped(cv)
                == table_stopped(cv.skip(i as int)),
            found ==> table_records(cv) == scan_records(cv.skip(i + 1)) && table_stopped(cv)
                == scan_stopped(cv.skip(i + 1)),
        decreases n - i + (if found { 0int } else { 1int }),
    {
        proof {
            lemma_skip_succ(cv, i as int);
        }
        if is_anchor_cell(&tbl.cells[i]) {
            found = true;
        } else {
            i += 1;
        }
    }
    if !found {
        proof {
            assert(cv.skip(n as int) =~= Seq::<Seq<Seq<char>>>::empty());
        }
        let empty: Vec<MittyUpdate> = Vec::new();
        proof {
            assert(empty.deep_view() =~= Seq::<UpdateView>::empty());
        }
        return (empty, false);
    }
    let mut recs: Vec<MittyUpdate> = Vec::new();
    let mut j: usize = i + 1;
    proof {
        assert(recs.deep_view() =~= Seq::<UpdateView>::empty());
    }
    while j < n
        invariant
            i < j <= n,
            n == tbl.cells.len(),
            cv == tbl.deep_view(),
            table_records(cv) == recs.deep_view() + scan_records(cv.skip(j as int)),
            table_stopped(cv) == scan_stopped(cv.skip(j as int)),
        decreases n - j,
    {
        proof {
            lemma_skip_succ(cv, j as int);
        }
        let ghost old_recs = recs.deep_view();
        match decode_cell(&tbl.cells[j]) {
            None => {},
            Some(u) => {
                if u.body == String::from_str("[CORRUPTED DATA] [RESTARTING...]") {
                    proof {
                        assert(scan_records(cv.skip(j as int)) =~= Seq::<UpdateView>::empty());
                        assert(table_records(cv) =~= recs.deep_view());
                    }
                    return (recs, true);
                }
                let ghost uv = u.deep_view();
                recs.push(u);
                proof {
                    assert(recs.deep_view() =~= old_recs.push(uv));
                    assert(old_recs.push(uv) + scan_records(cv.skip(j + 1)) =~= old_recs + (
                    seq![uv] + scan_records(cv.skip(j + 1))));
                }
            },
        }
        j += 1;
    }
    proof {
        assert(cv.skip(n as int) =~= Seq::<Seq<Seq<char>>>::empty());
        assert(table_records(cv) =~= recs.deep_view());
    }
    (recs, false)
}

/// Extraction over an already-decomposed document: walk the containers in
/// document order and return the first one's yield, or the parse error when
/// every container yields nothing.
pub fn extract_from_tables(tables: &Vec<Table>) -> (r: Result<Vec<MittyUpdate>, MittyAntennaError>)
    ensures
        match r {
            Ok(v) => doc_extraction(tables.deep_view()) == Some(v.deep_view()),
            Err(e) => doc_extraction(tables.deep_view()) is None && e is UpdateBoard,
        },
{
    let ghost dv = tables.deep_view();
    let n = tables.len();
    let mut t: usize = 0;
    proof {
        assert(dv.skip(0) =~= dv);
    }
    while t < n
        invariant
            t <= n,
            n == tables.len(),
            dv == tables.deep_view(),
            doc_extraction(dv) == doc_extraction(dv.skip(t as int)),
        decreases n - t,
    {
        proof {
            lemma_skip_succ(dv, t as int);
        }
        let (recs, stopped) = table_extract(&tables[t]);
        if recs.len() > 0 || stopped {
            return Ok(recs);
        }
        t += 1;
    }
    proof {
        assert(dv.skip(n as int) =~= Seq::<Seq<Seq<Seq<char>>>>::empty());
    }
    Err(MittyAntennaError::UpdateBoard("No posts found in HTML"))
}

/// What scraper's HTML parse yields on a document: its table elements in
/// document order, each as its `td` cells in document order, each cell as
/// its text nodes in document order. Parsing is a pure function of the
/// document text, so the result carries a name rather than a definition.
pub uninterp spec fn doc_tables(doc: Seq<char>) -> Seq<Seq<Seq<Seq<char>>>>;

/// Relies on scraper: `Html::parse_document`, `Selector::parse` on the fixed
/// selectors `table` and `td`, `Html::select`, `ElementRef::select` and
/// `ElementRef::text`, which walk the parsed tree in document order. The
/// result depends on the document text alone; `doc_tables` names it.
#[verifier::external_body]
fn parse_tables(doc: &str) -> (r: Vec<Table>)
    ensures
        r.deep_view() == doc_tables(doc@),
{
    let html = scraper::Html::parse_document(doc);
    let table_sel = scraper::Selector::parse("table").unwrap();
    let td_sel = scraper::Selector::parse("td").unwrap();
    html.select(&table_sel)
        .map(|t| Table {
            cells: t
                .select(&td_sel)
                .map(|c| Cell { texts: c.text().map(str::to_owned).collect() })
                .collect(),
        })
        .collect()
}

/// The Extractor: parse the page text and return the update records found,
/// in document (newest-first) order, or the parse error when no container
/// yields any.
pub fn extract_updates(doc: &str) -> (r: Result<Vec<MittyUpdate>, MittyAntennaError>)
    ensures
        match r {
            Ok(v) => doc_extraction(doc_tables(doc@)) == Some(v.deep_view()),
            Err(e) => doc_extraction(doc_tables(doc@)) is None && e is UpdateBoard,
        },
{
    let tables = parse_tables(doc);
    extract_from_tables(&tables)
}

/// A container with no anchor cell yields nothing and cannot be stopped.
proof fn lemma_no_anchor_in_table(cells: Seq<Seq<Seq<char>>>)
    requires
        forall|k: int| 0 <= k < cells.len() ==> !is_anchor(cells[k]),
    ensures
        table_records(cells).len() == 0,
        !table_stopped(cells),
    decreases cells.len(),
{
    if cells.len() > 0 {
        assert forall|k: int| 0 <= k < cells.drop_first().len() implies !is_anchor(
            cells.drop_first()[k],
        ) by {
            assert(cells.drop_first()[k] == cells[k + 1]);
        }
        lemma_no_anchor_in_table(cells.drop_first());
    }
}

/// A document with no anchor cell in any container fails extraction with
/// the parse error.
pub proof fn lemma_no_anchor_no_extraction(tables: Seq<Seq<Seq<Seq<char>>>>)
    requires
        forall|t: int, k: int|
            0 <= t < tables.len() && 0 <= k < tables[t].len() ==> !is_anchor(tables[t][k]),
    ensures
        doc_extraction(tables) is None,
    decreases tables.len(),
{
    if tables.len() > 0 {
        lemma_no_anchor_in_table(tables[0]);
        assert forall|t: int, k: int|
            0 <= t < tables.drop_first().len() && 0 <= k < tables.drop_first()[t].len()
            implies !is_anchor(tables.drop_first()[t][k]) by {
            assert(tables.drop_first()[t] == tables[t + 1]);
        }
        lemma_no_anchor_no_extraction(tables.drop_first());
    }
}

/// Extraction fails exactly when every container yields no record and is
/// never stopped by the sentinel; in particular a container stopped by the
/// sentinel means extraction succeeds without an error.
pub proof fn lemma_extraction_failure_characterized(tables: Seq<Seq<Seq<Seq<char>>>>)
    ensures
        doc_extraction(tables) is None <==> forall|t: int|
            0 <= t < tables.len() ==> table_records(tables[t]).len() == 0 && !table_stopped(
                tables[t],
            ),
    decreases tables.len(),
{
    if tables.len() > 0 {
        let rest = tables.drop_first();
        lemma_extraction_failure_characterized(rest);
        if doc_extraction(tables) is None {
            assert forall|t: int|
                0 <= t < tables.len() implies table_records(tables[t]).len() == 0
                && !table_stopped(tables[t]) by {
                if t > 0 {
                    assert(rest[t - 1] == tables[t]);
                }
            }
        } else {
            if table_records(tables[0]).len() == 0 && !table_stopped(tables[0]) {
                let t = choose|t: int|
                    0 <= t < rest.len() && !(table_records(rest[t]).len() == 0 && !table_stopped(
                        rest[t],
                    ));
                assert(tables[t + 1] == rest[t]);
                assert(!(table_records(tables[t + 1]).len() == 0 && !table_stopped(
                    tables[t + 1],
                )));
            }
        }
    }
}

/// Whether a cell decodes to the sentinel body.
pub open spec fn is_sentinel_cell(texts: Seq<Seq<char>>) -> bool {
    cell_decodes(texts) && decode_view(texts).body == sentinel_body()
}

/// The sentinel truncates the scan without an error: every record decoded
/// before the first sentinel cell is retained, no cell after it contributes
/// anything, and the scan reports the stop.
pub proof fn lemma_sentinel_truncates(cells: Seq<Seq<Seq<char>>>, s: int)
    requires
        0 <= s < cells.len(),
        is_sentinel_cell(cells[s]),
        forall|k: int| 0 <= k < s ==> !is_sentinel_cell(cells[k]),
    ensures
        scan_stopped(cells),
        scan_records(cells) == scan_records(cells.take(s)),
        !scan_stopped(cells.take(s)),
    decreases s,
{
    if s == 0 {
        assert(cells.take(0) =~= Seq::<Seq<Seq<char>>>::empty());
    } else {
        let rest = cells.drop_first();
        assert forall|k: int| 0 <= k < s - 1 implies !is_sentinel_cell(rest[k]) by {
            assert(rest[k] == cells[k + 1]);
        }
        assert(rest[s - 1] == cells[s]);
        lemma_sentinel_truncates(rest, s - 1);
        assert(cells.take(s).drop_first() =~= rest.take(s - 1));
        assert(cells.take(s)[0] == cells[0]);
        assert(!is_sentinel_cell(cells[0]));
    }
}

/// Extraction is deterministic: two extractions of the same document agree.
pub proof fn lemma_extraction_deterministic(
    tables: Seq<Seq<Seq<Seq<char>>>>,
    r1: Option<Seq<UpdateView>>,
    r2: Option<Seq<UpdateView>>,
)
    requires
        r1 == doc_extraction(tables),
        r2 == doc_extraction(tables),
    ensures
        r1 == r2,
{
}

} // verus!
