use vstd::prelude::*;
use crate::dom::{DomNode, class_pred, tag_pred, text_pred, text_contains_pred, find_spec};
use crate::percent::{Percentage, ParseError, parse_spec, parse_percentage};
use crate::query::{find_by_class, find_by_tag, find_by_text, find_by_text_containing};

verus! {

broadcast use vstd::seq::group_seq_axioms, vstd::std_specs::vec::group_vec_axioms;

/// A point in time: whole seconds since the Unix epoch, plus nanoseconds.
#[derive(Clone, Copy, Debug, PartialEq, Eq, Structural)]
pub struct Timestamp {
    pub seconds: i64,
    pub nanos: u32,
}

/// The part of the page that could not be found.
#[derive(Clone, Copy, Debug, PartialEq, Eq, Structural)]
pub enum Field {
    /// The `TBODY` of the movers table.
    TableBody,
    /// The `wsod_firstCol` column of a row.
    SymbolColumn,
    /// The text node holding a ticker symbol.
    SymbolText,
    /// The `posChangePct` column of a gainer row.
    ChangeColumn,
    /// The text node holding a gainer's change.
    ChangeText,
    /// The `wsod_futureQuote wsod_futureQuoteFirst` row of the S&P fragment.
    QuoteRow,
    /// The `wsod_bold wsod_aRight` cell of that row.
    QuoteCell,
    /// A text node holding `%` inside that cell.
    QuoteText,
}

/// Why a batch could not be extracted; a failed batch yields no records.
#[derive(Clone, Copy, Debug, PartialEq, Eq, Structural)]
pub enum ExtractionError {
    MissingField(Field),
    Parse(ParseError),
}

/// What the movers extractor does on the first row marked as a loser.
#[derive(Clone, Copy, Debug, PartialEq, Eq, Structural)]
pub enum LoserPolicy {
    /// Losers follow all gainers: stop reading rows.
    Stop,
    /// Losers may be interleaved: pass over the row and go on.
    Skip,
}

/// A symbol with its percentage change, not yet stamped with a time.
#[derive(Debug, PartialEq, Eq)]
pub struct Quote {
    pub symbol: String,
    pub percentage: Percentage,
}

/// One observation of an after-hours price change, as stored.
#[derive(Debug, PartialEq, Eq)]
pub struct AfterMarketPriceData {
    pub symbol: String,
    pub percentage: Percentage,
    pub date: Timestamp,
}

impl View for Quote {
    type V = (Seq<char>, Percentage);

    open spec fn view(&self) -> (Seq<char>, Percentage) {
        (self.symbol@, self.percentage)
    }
}

impl View for AfterMarketPriceData {
    type V = (Seq<char>, Percentage, Timestamp);

    open spec fn view(&self) -> (Seq<char>, Percentage, Timestamp) {
        (self.symbol@, self.percentage, self.date)
    }
}

pub open spec fn quotes_view(v: Seq<Quote>) -> Seq<(Seq<char>, Percentage)> {
    v.map_values(|q: Quote| q@)
}

pub open spec fn records_view(v: Seq<AfterMarketPriceData>) -> Seq<(Seq<char>, Percentage, Timestamp)> {
    v.map_values(|d: AfterMarketPriceData| d@)
}

/// Puts `acc` in front of the entries of a successful `r`.
pub open spec fn prepend<T>(acc: Seq<T>, r: Result<Seq<T>, ExtractionError>) -> Result<Seq<T>, ExtractionError> {
    match r {
        Ok(rest) => Ok(acc + rest),
        Err(e) => Err(e),
    }
}

pub open spec fn parsed(r: Result<Percentage, ParseError>) -> Result<Percentage, ExtractionError> {
    match r {
        Ok(p) => Ok(p),
        Err(e) => Err(ExtractionError::Parse(e)),
    }
}

/// The row holds the movers table's caption.
pub open spec fn is_header_row(row: DomNode) -> bool {
    find_spec(row, text_pred("Gainers & Losers"@)) is Some
}

/// The row marks its change as a loss.
pub open spec fn is_loser_row(row: DomNode) -> bool {
    find_spec(row, class_pred("negChangePct"@)) is Some
}

/// The ticker symbol of a data row.
pub open spec fn row_symbol(row: DomNode) -> Result<Seq<char>, ExtractionError> {
    match find_spec(row, class_pred("wsod_firstCol"@)) {
        None => Err(ExtractionError::MissingField(Field::SymbolColumn)),
        Some(col) => match find_spec(col, tag_pred("#text"@)) {
            None => Err(ExtractionError::MissingField(Field::SymbolText)),
            Some(t) => Ok(t.text_value@),
        },
    }
}

/// The percentage change of a gainer row.
pub open spec fn row_change(row: DomNode) -> Result<Percentage, ExtractionError> {
    match find_spec(row, class_pred("posChangePct"@)) {
        None => Err(ExtractionError::MissingField(Field::ChangeColumn)),
        Some(col) => match find_spec(col, tag_pred("#text"@)) {
            None => Err(ExtractionError::MissingField(Field::ChangeText)),
            Some(t) => parsed(parse_spec(t.text_value@)),
        },
    }
}

/// The gainers read from `rows`, in order: header rows are passed over, a
/// loser row ends the reading or is passed over as `policy` says, and the
/// first missing field or unreadable change fails the whole batch.
pub open spec fn movers_spec(rows: Seq<DomNode>, policy: LoserPolicy) -> Result<
    Seq<(Seq<char>, Percentage)>,
    ExtractionError,
>
    decreases rows.len(),
{
    if rows.len() == 0 {
        Ok(Seq::empty())
    } else {
        let row = rows[0];
        if is_header_row(row) {
            movers_spec(rows.drop_first(), policy)
        } else {
            match row_symbol(row) {
                Err(e) => Err(e),
                Ok(sym) => if is_loser_row(row) {
                    match policy {
                        LoserPolicy::Stop => Ok(Seq::empty()),
                        LoserPolicy::Skip => movers_spec(rows.drop_first(), policy),
                    }
                } else {
                    match row_change(row) {
                        Err(e) => Err(e),
                        Ok(p) => prepend(seq![(sym, p)], movers_spec(rows.drop_first(), policy)),
                    }
                },
            }
        }
    }
}

/// The gainers of the movers table found under `container`.
pub open spec fn table_movers_spec(container: DomNode, policy: LoserPolicy) -> Result<
    Seq<(Seq<char>, Percentage)>,
    ExtractionError,
> {
    match find_spec(container, tag_pred("TBODY"@)) {
        None => Err(ExtractionError::MissingField(Field::TableBody)),
        Some(body) => movers_spec(body.children@, policy),
    }
}

/// The S&P 500 change shown in the quote fragment.
pub open spec fn sp_spec(fragment: DomNode) -> Result<Percentage, ExtractionError> {
    match find_spec(fragment, class_pred("wsod_futureQuote wsod_futureQuoteFirst"@)) {
        None => Err(ExtractionError::MissingField(Field::QuoteRow)),
        Some(row) => match find_spec(row, class_pred("wsod_bold wsod_aRight"@)) {
            None => Err(ExtractionError::MissingField(Field::QuoteCell)),
            Some(cell) => match find_spec(cell, text_contains_pred('%')) {
                None => Err(ExtractionError::MissingField(Field::QuoteText)),
                Some(t) => parsed(parse_spec(t.text_value@)),
            },
        },
    }
}

pub open spec fn quotes_result(r: Result<Vec<Quote>, ExtractionError>) -> Result<
    Seq<(Seq<char>, Percentage)>,
    ExtractionError,
> {
    match r {
        Ok(v) => Ok(quotes_view(v@)),
        Err(e) => Err(e),
    }
}

/// The first node tagged `tag` under `node`, or a missing `field`.
fn get_node_with_name<'a>(node: &'a DomNode, tag: &str, field: Field) -> (r: Result<&'a DomNode, ExtractionError>)
    ensures
        match r {
            Ok(n) => find_spec(*node, tag_pred(tag@)) == Some(*n),
            Err(e) => find_spec(*node, tag_pred(tag@)) is None && e == ExtractionError::MissingField(field),
        },
{
    match find_by_tag(node, tag) {
        Some(n) => Ok(n),
        None => Err(ExtractionError::MissingField(field)),
    }
}

/// The first node under `node` whose whole class is `class`, or a missing `field`.
fn get_node_with_class<'a>(node: &'a DomNode, class: &str, field: Field) -> (r: Result<&'a DomNode, ExtractionError>)
    ensures
        match r {
            Ok(n) => find_spec(*node, class_pred(class@)) == Some(*n),
            Err(e) => find_spec(*node, class_pred(class@)) is None && e == ExtractionError::MissingField(field),
        },
{
    match find_by_class(node, class) {
        Some(n) => Ok(n),
        None => Err(ExtractionError::MissingField(field)),
    }
}

/// Reads a displayed percentage as part of a batch.
fn read_change(text: &String) -> (r: Result<Percentage, ExtractionError>)
    ensures
        r == parsed(parse_spec(text@)),
{
    match parse_percentage(text.as_str()) {
        Ok(p) => Ok(p),
        Err(e) => Err(ExtractionError::Parse(e)),
    }
}

/// Reads the gainers from the rows of the movers table, in document order.
///
/// A row holding the caption `Gainers & Losers` is the header and is passed
/// over. Every other row must have a `wsod_firstCol` column whose text is
/// the symbol. A row with a `negChangePct` column is a loser: reading stops
/// there, or the row is passed over, as `policy` says. A gainer's change is
/// the text of its `posChangePct` column. Any missing part or unreadable
/// change fails the whole batch.
pub fn extract_movers(rows: &Vec<DomNode>, policy: LoserPolicy) -> (r: Result<Vec<Quote>, ExtractionError>)
    ensures
        quotes_result(r) == movers_spec(rows@, policy),
{
    let mut out: Vec<Quote> = Vec::new();
    let mut i: usize = 0;
    assert(rows@.skip(0) =~= rows@);
    assert(quotes_view(out@) + Seq::empty() =~= Seq::<(Seq<char>, Percentage)>::empty());
    while i < rows.len()
        invariant
            i <= rows.len(),
            movers_spec(rows@, policy) == prepend(quotes_view(out@), movers_spec(rows@.skip(i as int), policy)),
        decreases rows.len() - i,
    {
        let row = &rows[i];
        let ghost rest = rows@.skip(i as int);
        assert(rest[0] == rows@[i as int]);
        assert(rest.drop_first() =~= rows@.skip(i + 1));
        if find_by_text(row, "Gainers & Losers").is_some() {
            i += 1;
            continue;
        }
        let first_col = match get_node_with_class(row, "wsod_firstCol", Field::SymbolColumn) {
            Ok(n) => n,
            Err(e) => return Err(e),
        };
        let symbol_node = match get_node_with_name(first_col, "#text", Field::SymbolText) {
            Ok(n) => n,
            Err(e) => return Err(e),
        };
        let symbol = symbol_node.text_value.clone();
        if find_by_class(row, "negChangePct").is_some() {
            match policy {
                LoserPolicy::Stop => {
                    assert(quotes_view(out@) + Seq::empty() =~= quotes_view(out@));
                    return Ok(out);
                },
                LoserPolicy::Skip => {
                    i += 1;
                    continue;
                },
            }
        }
        let change_col = match get_node_with_class(row, "posChangePct", Field::ChangeColumn) {
            Ok(n) => n,
            Err(e) => return Err(e),
        };
        let change_node = match get_node_with_name(change_col, "#text", Field::ChangeText) {
            Ok(n) => n,
            Err(e) => return Err(e),
        };
        let percentage = match read_change(&change_node.text_value) {
            Ok(p) => p,
            Err(e) => return Err(e),
        };
        let q = Quote { symbol, percentage };
        let ghost before = quotes_view(out@);
        out.push(q);
        proof {
            assert(quotes_view(out@) =~= before.push(q@));
            match movers_spec(rows@.skip(i + 1), policy) {
                Ok(tail) => {
                    assert(before + (seq![q@] + tail) =~= quotes_view(out@) + tail);
                },
                Err(_) => {},
            }
        }
        i += 1;
    }
    assert(rows@.skip(i as int) =~= Seq::<DomNode>::empty());
    assert(quotes_view(out@) + Seq::empty() =~= quotes_view(out@));
    Ok(out)
}

/// Gives every quote, in order, the capture time `t`.
pub open spec fn stamp(qs: Seq<(Seq<char>, Percentage)>, t: Timestamp) -> Seq<(Seq<char>, Percentage, Timestamp)> {
    qs.map_values(|q: (Seq<char>, Percentage)| (q.0, q.1, t))
}

/// The symbol under which the S&P 500 change is stored.
pub open spec fn sp_symbol() -> Seq<char> {
    "S&P"@
}

/// The batch of one run: the gainers of the movers table, then the S&P 500
/// change, all stamped with `t`. The table is read first, so its failure
/// is the one reported when both parts fail.
pub open spec fn snapshot_spec(container: DomNode, fragment: DomNode, t: Timestamp, policy: LoserPolicy) -> Result<
    Seq<(Seq<char>, Percentage, Timestamp)>,
    ExtractionError,
> {
    match table_movers_spec(container, policy) {
        Err(e) => Err(e),
        Ok(movers) => match sp_spec(fragment) {
            Err(e) => Err(e),
            Ok(p) => Ok(stamp(movers.push((sp_symbol(), p)), t)),
        },
    }
}

/// Reads the gainers of the movers table found under `container`: the
/// rows are the children of its first `TBODY`.
pub fn get_after_market_ticker_data(container: &DomNode, policy: LoserPolicy) -> (r: Result<
    Vec<Quote>,
    ExtractionError,
>)
    ensures
        quotes_result(r) == table_movers_spec(*container, policy),
{
    let body = match get_node_with_name(container, "TBODY", Field::TableBody) {
        Ok(n) => n,
        Err(e) => return Err(e),
    };
    extract_movers(&body.children, policy)
}

/// Reads the S&P 500 change from its quote fragment: the first text with a
/// `%` inside the `wsod_bold wsod_aRight` cell of the
/// `wsod_futureQuote wsod_futureQuoteFirst` row. Class names match the
/// whole `class` attribute.
pub fn get_standard_and_poors_ticker_data(fragment: &DomNode) -> (r: Result<Quote, ExtractionError>)
    ensures
        match r {
            Ok(q) => sp_spec(*fragment) == Ok::<Percentage, ExtractionError>(q.percentage) && q.symbol@ == sp_symbol(),
            Err(e) => sp_spec(*fragment) == Err::<Percentage, ExtractionError>(e),
        },
{
    let row = match get_node_with_class(fragment, "wsod_futureQuote wsod_futureQuoteFirst", Field::QuoteRow) {
        Ok(n) => n,
        Err(e) => return Err(e),
    };
    let cell = match get_node_with_class(row, "wsod_bold wsod_aRight", Field::QuoteCell) {
        Ok(n) => n,
        Err(e) => return Err(e),
    };
    let text = match find_by_text_containing(cell, '%') {
        Some(n) => n,
        None => return Err(ExtractionError::MissingField(Field::QuoteText)),
    };
    let percentage = match read_change(&text.text_value) {
        Ok(p) => p,
        Err(e) => return Err(e),
    };
    Ok(Quote { symbol: "S&P".to_owned(), percentage })
}

/// Joins the movers and the S&P quote into one batch: the movers in their
/// order, then the S&P quote, every record stamped with the one capture
/// time `captured_at`.
pub fn assemble(movers: Vec<Quote>, sp: Quote, captured_at: Timestamp) -> (r: Vec<AfterMarketPriceData>)
    ensures
        records_view(r@) == stamp(quotes_view(movers@).push(sp@), captured_at),
        r@.len() == movers@.len() + 1,
        forall|i: int| 0 <= i < movers@.len() ==> #[trigger] r@[i]@ == (movers@[i].symbol@, movers@[i].percentage, captured_at),
        r@[movers@.len() as int]@ == (sp.symbol@, sp.percentage, captured_at),
        forall|i: int| 0 <= i < r@.len() ==> #[trigger] r@[i].date == captured_at,
{
    let mut out: Vec<AfterMarketPriceData> = Vec::new();
    let mut i: usize = 0;
    while i < movers.len()
        invariant
            i <= movers@.len(),
            out@.len() == i,
            forall|j: int| 0 <= j < i ==> #[trigger] out@[j]@ == (movers@[j].symbol@, movers@[j].percentage, captured_at),
        decreases movers.len() - i,
    {
        let q = &movers[i];
        out.push(AfterMarketPriceData { symbol: q.symbol.clone(), percentage: q.percentage, date: captured_at });
        i += 1;
    }
    out.push(AfterMarketPriceData { symbol: sp.symbol, percentage: sp.percentage, date: captured_at });
    assert(records_view(out@) =~= stamp(quotes_view(movers@).push(sp@), captured_at));
    assert forall|j: int| 0 <= j < out@.len() implies #[trigger] out@[j].date == captured_at by {
        if j < movers@.len() {
            assert(out@[j]@ == (movers@[j].symbol@, movers@[j].percentage, captured_at));
        }
    }
    out
}

/// Extracts one batch from a rendered page: the gainers of the movers
/// table under `container`, read as `policy` says, then the S&P 500 change
/// from `fragment`, all stamped with `captured_at`. Any failure fails the
/// whole batch.
pub fn scrape_cnn_after_market_datasource(
    container: &DomNode,
    fragment: &DomNode,
    captured_at: Timestamp,
    policy: LoserPolicy,
) -> (r: Result<Vec<AfterMarketPriceData>, ExtractionError>)
    ensures
        match r {
            Ok(v) => snapshot_spec(*container, *fragment, captured_at, policy) == Ok::<
                Seq<(Seq<char>, Percentage, Timestamp)>,
                ExtractionError,
            >(records_view(v@)),
            Err(e) => snapshot_spec(*container, *fragment, captured_at, policy) == Err::<
                Seq<(Seq<char>, Percentage, Timestamp)>,
                ExtractionError,
            >(e),
        },
{
    let movers = match get_after_market_ticker_data(container, policy) {
        Ok(v) => v,
        Err(e) => return Err(e),
    };
    let sp = match get_standard_and_poors_ticker_data(fragment) {
        Ok(q) => q,
        Err(e) => return Err(e),
    };
    Ok(assemble(movers, sp, captured_at))
}

/// A row that is read as a gainer: not the header, not a loser, with a
/// symbol and a readable change.
pub open spec fn is_gainer_row(row: DomNode) -> bool {
    &&& !is_header_row(row)
    &&& !is_loser_row(row)
    &&& row_symbol(row) is Ok
    &&& row_change(row) is Ok
}

/// The quote that a gainer row yields.
pub open spec fn gainer_quote(row: DomNode) -> (Seq<char>, Percentage) {
    (row_symbol(row)->Ok_0, row_change(row)->Ok_0)
}

/// Without a header row, no row is passed over: when every row is a
/// readable gainer, the table yields one quote per row, in row order,
/// whatever the loser policy.
pub proof fn lemma_headerless_rows_all_read(rows: Seq<DomNode>, policy: LoserPolicy)
    requires
        forall|i: int| 0 <= i < rows.len() ==> is_gainer_row(#[trigger] rows[i]),
    ensures
        movers_spec(rows, policy) == Ok::<Seq<(Seq<char>, Percentage)>, ExtractionError>(
            rows.map_values(|r: DomNode| gainer_quote(r)),
        ),
    decreases rows.len(),
{
    if rows.len() == 0 {
        assert(rows.map_values(|r: DomNode| gainer_quote(r)) =~= Seq::<(Seq<char>, Percentage)>::empty());
    } else {
        let tail = rows.drop_first();
        assert(is_gainer_row(rows[0]));
        assert forall|i: int| 0 <= i < tail.len() implies is_gainer_row(#[trigger] tail[i]) by {
            assert(tail[i] == rows[i + 1]);
        }
        lemma_headerless_rows_all_read(tail, policy);
        assert(seq![gainer_quote(rows[0])] + tail.map_values(|r: DomNode| gainer_quote(r))
            =~= rows.map_values(|r: DomNode| gainer_quote(r)));
    }
}

/// A row that is not the header and lacks the symbol column fails the
/// whole batch with a missing symbol column, when no earlier row ended the
/// reading: no partial list comes out.
pub proof fn lemma_row_without_symbol_fails(rows: Seq<DomNode>, policy: LoserPolicy, k: int)
    requires
        0 <= k < rows.len(),
        !is_header_row(rows[k]),
        find_spec(rows[k], class_pred("wsod_firstCol"@)) is None,
        forall|j: int| 0 <= j < k ==> is_header_row(#[trigger] rows[j]) || is_gainer_row(rows[j]),
    ensures
        movers_spec(rows, policy) == Err::<Seq<(Seq<char>, Percentage)>, ExtractionError>(
            ExtractionError::MissingField(Field::SymbolColumn),
        ),
    decreases k,
{
    if k > 0 {
        let tail = rows.drop_first();
        assert(is_header_row(rows[0]) || is_gainer_row(rows[0]));
        assert(tail[k - 1] == rows[k]);
        assert forall|j: int| 0 <= j < k - 1 implies is_header_row(#[trigger] tail[j]) || is_gainer_row(tail[j]) by {
            assert(tail[j] == rows[j + 1]);
        }
        lemma_row_without_symbol_fails(tail, policy, k - 1);
    }
}

/// When both parts of a page are read, the batch holds one record per
/// gainer, in table order, then the S&P 500 record last, all stamped with
/// the same capture time.
pub proof fn lemma_snapshot_shape(container: DomNode, fragment: DomNode, t: Timestamp, policy: LoserPolicy)
    requires
        table_movers_spec(container, policy) is Ok,
        sp_spec(fragment) is Ok,
    ensures
        ({
            let movers = table_movers_spec(container, policy)->Ok_0;
            let w = snapshot_spec(container, fragment, t, policy)->Ok_0;
            &&& snapshot_spec(container, fragment, t, policy) is Ok
            &&& w.len() == movers.len() + 1
            &&& forall|i: int| 0 <= i < movers.len() ==> #[trigger] w[i] == (movers[i].0, movers[i].1, t)
            &&& w[movers.len() as int] == (sp_symbol(), sp_spec(fragment)->Ok_0, t)
            &&& forall|i: int| 0 <= i < w.len() ==> #[trigger] w[i].2 == t
        }),
{
    let movers = table_movers_spec(container, policy)->Ok_0;
    let all = movers.push((sp_symbol(), sp_spec(fragment)->Ok_0));
    let w = stamp(all, t);
    assert forall|i: int| 0 <= i < movers.len() implies #[trigger] w[i] == (movers[i].0, movers[i].1, t) by {
        assert(all[i] == movers[i]);
    }
}

} // verus!
