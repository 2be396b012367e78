use after_market::{
    assemble, extract_movers, find_by_class, find_by_tag, find_by_text, find_by_text_containing,
    find_first, get_after_market_ticker_data, get_standard_and_poors_ticker_data,
    parse_percentage, scrape_cnn_after_market_datasource, AfterMarketPriceData, DomNode,
    ExtractionError, Field, LoserPolicy, ParseError, Percentage, Query, Quote, Timestamp,
};

fn text(value: &str) -> DomNode {
    DomNode {
        tag: "#text".to_string(),
        text_value: value.to_string(),
        attributes: Vec::new(),
        children: Vec::new(),
    }
}

fn elem(tag: &str, class: Option<&str>, children: Vec<DomNode>) -> DomNode {
    let attributes = match class {
        Some(c) => vec![("class".to_string(), c.to_string())],
        None => Vec::new(),
    };
    DomNode { tag: tag.to_string(), text_value: String::new(), attributes, children }
}

fn header() -> DomNode {
    elem("TR", None, vec![elem("TH", None, vec![text("Gainers & Losers")])])
}

fn row(symbol: &str, change_class: &str, change: &str) -> DomNode {
    elem(
        "TR",
        None,
        vec![
            elem("TD", Some("wsod_firstCol"), vec![elem("A", None, vec![text(symbol)])]),
            elem("TD", None, vec![text("12.34")]),
            elem("TD", Some(change_class), vec![elem("SPAN", None, vec![text(change)])]),
        ],
    )
}

fn gainer(symbol: &str, change: &str) -> DomNode {
    row(symbol, "posChangePct", change)
}

fn loser(symbol: &str, change: &str) -> DomNode {
    row(symbol, "negChangePct", change)
}

fn table(rows: Vec<DomNode>) -> DomNode {
    elem(
        "DIV",
        None,
        vec![elem("TABLE", None, vec![elem("TBODY", None, rows)])],
    )
}

fn sp_fragment(change: &str) -> DomNode {
    elem(
        "DIV",
        None,
        vec![elem(
            "TR",
            Some("wsod_futureQuote wsod_futureQuoteFirst"),
            vec![
                elem("TD", None, vec![text("S&P 500")]),
                elem(
                    "TD",
                    Some("wsod_bold wsod_aRight"),
                    vec![elem("SPAN", None, vec![text("-14.50"), text(change), text("0.1%")])],
                ),
            ],
        )],
    )
}

fn pct(units: i64, scale: usize) -> Percentage {
    Percentage { units, scale }
}

fn quote(symbol: &str, units: i64, scale: usize) -> Quote {
    Quote { symbol: symbol.to_string(), percentage: pct(units, scale) }
}

fn at() -> Timestamp {
    Timestamp { seconds: 1_546_300_800, nanos: 250 }
}

#[test]
fn parse_signed_percentages() {
    assert_eq!(parse_percentage("+7.06%"), Ok(pct(706, 2)));
    assert_eq!(parse_percentage("-3.99%"), Ok(pct(-399, 2)));
    assert_eq!(parse_percentage("12%"), Ok(pct(12, 0)));
    assert_eq!(parse_percentage("-0.71%"), Ok(pct(-71, 2)));
    assert_eq!(parse_percentage("0.050%"), Ok(pct(50, 3)));
    assert_eq!(parse_percentage("5.%"), Ok(pct(5, 0)));
    assert_eq!(parse_percentage(".5%"), Ok(pct(5, 1)));
}

#[test]
fn parse_keeps_the_sign() {
    let up = parse_percentage("+2.50%").unwrap();
    let down = parse_percentage("-2.50%").unwrap();
    assert_eq!(up.units, 250);
    assert_eq!(down.units, -250);
    assert_eq!(up.scale, down.scale);
}

#[test]
fn parse_rejects_missing_percent_sign() {
    assert_eq!(parse_percentage(""), Err(ParseError::Empty));
    assert_eq!(parse_percentage("abc"), Err(ParseError::Empty));
    assert_eq!(parse_percentage("5.0"), Err(ParseError::Empty));
    assert_eq!(parse_percentage("5%%").is_err(), true);
}

#[test]
fn parse_rejects_bad_numbers() {
    assert_eq!(parse_percentage("abc%"), Err(ParseError::InvalidNumber));
    assert_eq!(parse_percentage("%"), Err(ParseError::InvalidNumber));
    assert_eq!(parse_percentage("+%"), Err(ParseError::InvalidNumber));
    assert_eq!(parse_percentage(".%"), Err(ParseError::InvalidNumber));
    assert_eq!(parse_percentage("1.2.3%"), Err(ParseError::InvalidNumber));
    assert_eq!(parse_percentage("--1%"), Err(ParseError::InvalidNumber));
    assert_eq!(parse_percentage(" 1%"), Err(ParseError::InvalidNumber));
}

#[test]
fn parse_largest_and_too_large() {
    assert_eq!(parse_percentage("9223372036854775807%"), Ok(pct(i64::MAX, 0)));
    assert_eq!(parse_percentage("-922337203685477580.7%"), Ok(pct(-i64::MAX, 1)));
    assert_eq!(parse_percentage("9223372036854775808%"), Err(ParseError::OutOfRange));
    assert_eq!(parse_percentage("0.00000000000000000000001%"), Ok(pct(1, 23)));
}

#[test]
fn parse_exponents() {
    assert_eq!(parse_percentage("1e5%"), Ok(pct(100000, 0)));
    assert_eq!(parse_percentage("1.5e-3%"), Ok(pct(15, 4)));
    assert_eq!(parse_percentage("2.50E+1%"), Ok(pct(250, 1)));
    assert_eq!(parse_percentage("-7e0%"), Ok(pct(-7, 0)));
    assert_eq!(parse_percentage("+3E2%"), Ok(pct(300, 0)));
    assert_eq!(parse_percentage(".5e1%"), Ok(pct(5, 0)));
    assert_eq!(parse_percentage("5.e-1%"), Ok(pct(5, 1)));
    assert_eq!(parse_percentage("92233720368547758.07e2%"), Ok(pct(i64::MAX, 0)));
}

#[test]
fn parse_exponent_limits() {
    assert_eq!(parse_percentage("1e18%"), Ok(pct(1_000_000_000_000_000_000, 0)));
    assert_eq!(parse_percentage("1e19%"), Err(ParseError::OutOfRange));
    assert_eq!(parse_percentage("-1e400%"), Err(ParseError::OutOfRange));
    assert_eq!(parse_percentage("0e99999999999999999999999999999999999%"), Ok(pct(0, 0)));
    assert_eq!(parse_percentage("1e-99999999999999999999999999999999999%"), Err(ParseError::OutOfRange));
    assert_eq!(parse_percentage("1e-400%"), Ok(pct(1, 400)));
}

#[test]
fn parse_rejects_bad_exponents() {
    assert_eq!(parse_percentage("1e%"), Err(ParseError::InvalidNumber));
    assert_eq!(parse_percentage("1e+%"), Err(ParseError::InvalidNumber));
    assert_eq!(parse_percentage("e5%"), Err(ParseError::InvalidNumber));
    assert_eq!(parse_percentage("1e5.0%"), Err(ParseError::InvalidNumber));
    assert_eq!(parse_percentage("1e5x%"), Err(ParseError::InvalidNumber));
    assert_eq!(parse_percentage("1x5%"), Err(ParseError::InvalidNumber));
}

#[test]
fn parse_infinity_and_nan_cannot_be_held() {
    assert_eq!(parse_percentage("inf%"), Err(ParseError::OutOfRange));
    assert_eq!(parse_percentage("-Infinity%"), Err(ParseError::OutOfRange));
    assert_eq!(parse_percentage("+INF%"), Err(ParseError::OutOfRange));
    assert_eq!(parse_percentage("NaN%"), Err(ParseError::OutOfRange));
    assert_eq!(parse_percentage("infinit%"), Err(ParseError::InvalidNumber));
    assert_eq!(parse_percentage("nan"), Err(ParseError::Empty));
}

#[test]
fn find_first_is_preorder() {
    let tree = elem(
        "DIV",
        Some("outer"),
        vec![
            elem("P", None, vec![text("first"), elem("B", Some("mark"), vec![text("deep")])]),
            elem("P", Some("mark"), vec![text("second")]),
        ],
    );
    assert_eq!(find_by_tag(&tree, "#text").unwrap().text_value, "first");
    assert_eq!(find_by_class(&tree, "mark").unwrap().tag, "B");
    assert_eq!(find_by_class(&tree, "outer").unwrap().tag, "DIV");
    assert_eq!(find_by_tag(&tree, "DIV").unwrap().attributes.len(), 1);
    assert!(find_by_tag(&tree, "TABLE").is_none());
    assert_eq!(find_by_text(&tree, "second").unwrap().text_value, "second");
    assert_eq!(find_by_text_containing(&tree, 'e').unwrap().text_value, "deep");
    let q = Query::TextContains('x');
    assert!(find_first(&tree, &q).is_none());
}

#[test]
fn find_by_class_matches_the_whole_attribute() {
    let tree = elem(
        "DIV",
        None,
        vec![
            elem("SPAN", Some("wsod_bold wsod_aRight"), vec![]),
            elem("SPAN", Some("wsod_bold"), vec![]),
        ],
    );
    let found = find_by_class(&tree, "wsod_bold").unwrap();
    assert_eq!(found.attributes[0].1, "wsod_bold");
    assert!(find_by_class(&tree, "wsod_aRight").is_none());
}

#[test]
fn movers_stop_at_first_loser() {
    let t = table(vec![
        header(),
        gainer("AAPL", "+1.23%"),
        gainer("MSFT", "+0.50%"),
        loser("TSLA", "-2.00%"),
        gainer("GOOG", "+3.00%"),
    ]);
    let got = get_after_market_ticker_data(&t, LoserPolicy::Stop).unwrap();
    assert_eq!(got, vec![quote("AAPL", 123, 2), quote("MSFT", 50, 2)]);
}

#[test]
fn movers_skip_losers_when_asked() {
    let t = table(vec![
        header(),
        gainer("AAPL", "+1.23%"),
        loser("TSLA", "-2.00%"),
        gainer("GOOG", "+3.00%"),
    ]);
    let got = get_after_market_ticker_data(&t, LoserPolicy::Skip).unwrap();
    assert_eq!(got, vec![quote("AAPL", 123, 2), quote("GOOG", 300, 2)]);
}

#[test]
fn movers_without_header_read_every_row() {
    let rows = vec![gainer("AAPL", "+1.23%"), gainer("MSFT", "+0.50%"), gainer("IBM", "+4%")];
    let got = extract_movers(&rows, LoserPolicy::Stop).unwrap();
    assert_eq!(got.len(), rows.len());
    assert_eq!(got, vec![quote("AAPL", 123, 2), quote("MSFT", 50, 2), quote("IBM", 4, 0)]);
}

#[test]
fn movers_header_anywhere_is_passed_over() {
    let rows = vec![gainer("AAPL", "+1.23%"), header(), gainer("IBM", "+4%")];
    let got = extract_movers(&rows, LoserPolicy::Stop).unwrap();
    assert_eq!(got, vec![quote("AAPL", 123, 2), quote("IBM", 4, 0)]);
}

#[test]
fn movers_empty_table() {
    assert_eq!(extract_movers(&Vec::new(), LoserPolicy::Stop), Ok(Vec::new()));
    assert_eq!(get_after_market_ticker_data(&table(vec![header()]), LoserPolicy::Skip), Ok(Vec::new()));
}

#[test]
fn missing_symbol_column_fails_the_batch() {
    let broken = elem("TR", None, vec![elem("TD", Some("posChangePct"), vec![text("+1.00%")])]);
    let t = table(vec![header(), gainer("AAPL", "+1.23%"), broken, gainer("MSFT", "+0.50%")]);
    assert_eq!(
        get_after_market_ticker_data(&t, LoserPolicy::Stop),
        Err(ExtractionError::MissingField(Field::SymbolColumn))
    );
}

#[test]
fn missing_parts_are_reported() {
    let no_body = elem("DIV", None, vec![]);
    assert_eq!(
        get_after_market_ticker_data(&no_body, LoserPolicy::Stop),
        Err(ExtractionError::MissingField(Field::TableBody))
    );
    let no_symbol_text = elem("TR", None, vec![elem("TD", Some("wsod_firstCol"), vec![])]);
    assert_eq!(
        extract_movers(&vec![no_symbol_text], LoserPolicy::Stop),
        Err(ExtractionError::MissingField(Field::SymbolText))
    );
    let no_change = elem("TR", None, vec![elem("TD", Some("wsod_firstCol"), vec![text("AAPL")])]);
    assert_eq!(
        extract_movers(&vec![no_change], LoserPolicy::Stop),
        Err(ExtractionError::MissingField(Field::ChangeColumn))
    );
    let no_change_text = elem(
        "TR",
        None,
        vec![
            elem("TD", Some("wsod_firstCol"), vec![text("AAPL")]),
            elem("TD", Some("posChangePct"), vec![]),
        ],
    );
    assert_eq!(
        extract_movers(&vec![no_change_text], LoserPolicy::Stop),
        Err(ExtractionError::MissingField(Field::ChangeText))
    );
    assert_eq!(
        extract_movers(&vec![gainer("AAPL", "n/a")], LoserPolicy::Stop),
        Err(ExtractionError::Parse(ParseError::Empty))
    );
    assert_eq!(
        extract_movers(&vec![gainer("AAPL", "x%")], LoserPolicy::Stop),
        Err(ExtractionError::Parse(ParseError::InvalidNumber))
    );
}

#[test]
fn sp_change_is_first_text_with_percent() {
    let got = get_standard_and_poors_ticker_data(&sp_fragment("-0.71%")).unwrap();
    assert_eq!(got, quote("S&P", -71, 2));
}

#[test]
fn sp_missing_parts_are_reported() {
    let no_row = elem("DIV", None, vec![]);
    assert_eq!(
        get_standard_and_poors_ticker_data(&no_row),
        Err(ExtractionError::MissingField(Field::QuoteRow))
    );
    let no_cell = elem("DIV", None, vec![elem("TR", Some("wsod_futureQuote wsod_futureQuoteFirst"), vec![])]);
    assert_eq!(
        get_standard_and_poors_ticker_data(&no_cell),
        Err(ExtractionError::MissingField(Field::QuoteCell))
    );
    let no_text = elem(
        "DIV",
        None,
        vec![elem(
            "TR",
            Some("wsod_futureQuote wsod_futureQuoteFirst"),
            vec![elem("TD", Some("wsod_bold wsod_aRight"), vec![text("-14.50")])],
        )],
    );
    assert_eq!(
        get_standard_and_poors_ticker_data(&no_text),
        Err(ExtractionError::MissingField(Field::QuoteText))
    );
    assert_eq!(
        get_standard_and_poors_ticker_data(&sp_fragment("1.2.3%")),
        Err(ExtractionError::Parse(ParseError::InvalidNumber))
    );
}

#[test]
fn assemble_puts_sp_last_with_one_timestamp() {
    let movers = vec![quote("AAPL", 123, 2), quote("MSFT", 50, 2)];
    let got = assemble(movers, quote("S&P", -71, 2), at());
    let expected = vec![
        AfterMarketPriceData { symbol: "AAPL".to_string(), percentage: pct(123, 2), date: at() },
        AfterMarketPriceData { symbol: "MSFT".to_string(), percentage: pct(50, 2), date: at() },
        AfterMarketPriceData { symbol: "S&P".to_string(), percentage: pct(-71, 2), date: at() },
    ];
    assert_eq!(got, expected);
    assert!(got.iter().all(|d| d.date == at()));
}

#[test]
fn assemble_without_movers() {
    let got = assemble(Vec::new(), quote("S&P", 5, 1), at());
    assert_eq!(got.len(), 1);
    assert_eq!(got[0].symbol, "S&P");
}

#[test]
fn scrape_whole_page() {
    let t = table(vec![header(), gainer("AAPL", "+1.23%"), loser("TSLA", "-2.00%")]);
    let got = scrape_cnn_after_market_datasource(&t, &sp_fragment("+0.25%"), at(), LoserPolicy::Stop)
        .unwrap();
    assert_eq!(got.len(), 2);
    assert_eq!(got[0], AfterMarketPriceData { symbol: "AAPL".to_string(), percentage: pct(123, 2), date: at() });
    assert_eq!(got[1], AfterMarketPriceData { symbol: "S&P".to_string(), percentage: pct(25, 2), date: at() });
}

#[test]
fn scrape_fails_whole_when_a_part_fails() {
    let t = table(vec![header(), gainer("AAPL", "+1.23%")]);
    let no_sp = elem("DIV", None, vec![]);
    assert_eq!(
        scrape_cnn_after_market_datasource(&t, &no_sp, at(), LoserPolicy::Stop),
        Err(ExtractionError::MissingField(Field::QuoteRow))
    );
    let no_table = elem("DIV", None, vec![]);
    assert_eq!(
        scrape_cnn_after_market_datasource(&no_table, &no_sp, at(), LoserPolicy::Stop),
        Err(ExtractionError::MissingField(Field::TableBody))
    );
}
