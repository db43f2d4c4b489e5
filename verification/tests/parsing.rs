use rust_lob::orderbook::BidOrAsk;
use rust_lob::parser::{parse_file_orders, FileUploadOrder, FileUploadOrderType, ParseError};
use rust_lob::preview::{choose_file, get_preview_row, preview_rows, price_to_text, FileChoice};

fn chars(s: &str) -> Vec<char> {
    s.chars().collect()
}

fn parse(line: &str) -> Result<FileUploadOrderType, ParseError> {
    FileUploadOrder::parse(&chars(line)).map(|o| o.order)
}

#[test]
fn parses_add_line() {
    assert_eq!(
        parse("ADD, 1, BID, 100, 10.5"),
        Ok(FileUploadOrderType::Add { id: 1, side: BidOrAsk::Bid, shares: 100, price: 1050 })
    );
}

#[test]
fn parses_case_insensitive_and_trims() {
    assert_eq!(
        parse("  add ,7,ask ,  3 , 9.999 "),
        Ok(FileUploadOrderType::Add { id: 7, side: BidOrAsk::Ask, shares: 3, price: 1000 })
    );
    assert_eq!(parse("cancel, 12"), Ok(FileUploadOrderType::Cancel { id: 12 }));
}

#[test]
fn parses_modify_line() {
    assert_eq!(parse("MODIFY, 3, 10, 2.5"), Ok(FileUploadOrderType::Modify { id: 3, shares: 10, price: 250 }));
    assert_eq!(parse("MODIFY, 3, 10, 2.345"), Ok(FileUploadOrderType::Modify { id: 3, shares: 10, price: 235 }));
    assert_eq!(parse("MODIFY,3,10,-1"), Ok(FileUploadOrderType::Modify { id: 3, shares: 10, price: -100 }));
}

#[test]
fn rejects_wrong_field_counts() {
    assert_eq!(parse("ADD, 1, BID"), Err(ParseError::InvalidOrderFormat("ADD".to_string())));
    assert_eq!(parse("MODIFY, 1"), Err(ParseError::InvalidOrderFormat("MODIFY".to_string())));
    assert_eq!(parse("CANCEL, 1, 2"), Err(ParseError::InvalidOrderFormat("CANCEL".to_string())));
}

#[test]
fn rejects_unknown_type() {
    assert_eq!(parse("buy, 1"), Err(ParseError::InvalidOrderType("BUY".to_string())));
    assert_eq!(parse(""), Err(ParseError::InvalidOrderType("".to_string())));
}

#[test]
fn rejects_bad_fields() {
    assert!(matches!(parse("ADD, x, BID, 1, 1"), Err(ParseError::InvalidOrderId(_))));
    assert_eq!(parse("ADD, 1, BUY, 1, 1"), Err(ParseError::InvalidBidorAsk("BUY".to_string())));
    assert!(matches!(parse("ADD, 1, BID, -4, 1"), Err(ParseError::InvalidShares(_))));
    assert!(matches!(parse("ADD, 1, BID, 4, ten"), Err(ParseError::InvalidPrice(_))));
    assert!(matches!(parse("CANCEL, 18446744073709551616"), Err(ParseError::InvalidOrderId(_))));
}

#[test]
fn side_names_ignore_case() {
    assert_eq!(BidOrAsk::from_text(&chars("Bid")), Ok(BidOrAsk::Bid));
    assert_eq!(BidOrAsk::from_text(&chars("ASK")), Ok(BidOrAsk::Ask));
    assert_eq!(BidOrAsk::from_text(&chars("sell")), Err(ParseError::InvalidBidorAsk("sell".to_string())));
}

#[test]
fn file_counts_lines_and_rejections() {
    let data = b"ADD,1,BID,10,5\n\nCANCEL,1\nbad line\r\nMODIFY, 2, 3, 4.00\n\n";
    let (orders, _took, total, invalid) = parse_file_orders(data);
    assert_eq!(total, 4);
    assert_eq!(invalid, 1);
    assert_eq!(
        orders,
        vec![
            FileUploadOrderType::Add { id: 1, side: BidOrAsk::Bid, shares: 10, price: 500 },
            FileUploadOrderType::Cancel { id: 1 },
            FileUploadOrderType::Modify { id: 2, shares: 3, price: 400 },
        ]
    );
}

#[test]
fn file_last_line_needs_no_newline() {
    let (orders, _took, total, invalid) = parse_file_orders(b"CANCEL, 5\nCANCEL, 6");
    assert_eq!((total, invalid), (2, 0));
    assert_eq!(orders, vec![FileUploadOrderType::Cancel { id: 5 }, FileUploadOrderType::Cancel { id: 6 }]);
}

#[test]
fn file_rejects_invalid_utf8_lines() {
    let (orders, _took, total, invalid) = parse_file_orders(b"CANCEL, 5\n\xff\xfe\n");
    assert_eq!((total, invalid), (2, 1));
    assert_eq!(orders, vec![FileUploadOrderType::Cancel { id: 5 }]);
}

#[test]
fn empty_file_has_no_lines() {
    let (orders, _took, total, invalid) = parse_file_orders(b"\n\n");
    assert_eq!((total, invalid), (0, 0));
    assert!(orders.is_empty());
}

#[test]
fn errors_read_as_text() {
    assert_eq!(ParseError::InvalidBidorAsk("BUY".to_string()).to_text(), "Invalid bid/ask string: BUY");
    assert_eq!(ParseError::InvalidOrderType("X".to_string()).to_text(), "Invalid order type string: X");
    assert_eq!(ParseError::InvalidOrderFormat("ADD".to_string()).to_text(), "Invalid ADD order format");
    assert_eq!(ParseError::Empty.to_text(), "Empty order line in file");
    let e = "x".parse::<u64>().unwrap_err();
    assert_eq!(ParseError::InvalidShares(e.clone()).to_text(), format!("Faled to parse shares: {:?}", e));
    assert_eq!(ParseError::InvalidOrderId(e.clone()).to_text(), format!("Faled to parse Order ID: {:?}", e));
}

#[test]
fn preview_rows_show_orders_as_text() {
    let add = get_preview_row(3, &FileUploadOrderType::Add { id: 17, side: BidOrAsk::Ask, shares: 250, price: 1050 });
    assert_eq!(
        (add.row_id.as_str(), add.ordertype.as_str(), add.order_id.as_str(), add.side.as_str(), add.shares.as_str(), add.price.as_str()),
        ("preview-row-3", "ADD", "17", "ASK", "250", "10.50")
    );
    let cancel = get_preview_row(0, &FileUploadOrderType::Cancel { id: 9 });
    assert_eq!((cancel.side.as_str(), cancel.shares.as_str(), cancel.price.as_str()), ("-", "-", "-"));
    let modify = get_preview_row(12, &FileUploadOrderType::Modify { id: 4, shares: 1, price: -5 });
    assert_eq!((modify.ordertype.as_str(), modify.price.as_str()), ("MODIFY", "-0.05"));
    assert_eq!(price_to_text(0), "0.00");
    assert_eq!(price_to_text(123456), "1234.56");
    assert_eq!(BidOrAsk::Bid.to_text(), "BID");
}

#[test]
fn chosen_files_are_refused_sent_or_parsed() {
    assert!(matches!(choose_file("orders.csv", 10, "ADD,1,BID,5,9.5"), FileChoice::NotText));
    assert!(matches!(choose_file("txt", 10, ""), FileChoice::NotText));
    assert!(matches!(choose_file("BIG.TXT", 5 * 1024 * 1024, "ADD,1,BID,5,9.5"), FileChoice::Large));
    match choose_file("Orders.Txt", 5 * 1024 * 1024 - 1, "ADD,1,BID,5,9.5\r\nnot an order\n\nCANCEL,1\n") {
        FileChoice::Parsed { orders, lines } => {
            assert_eq!(lines, 4);
            assert_eq!(
                orders,
                vec![
                    FileUploadOrderType::Add { id: 1, side: BidOrAsk::Bid, shares: 5, price: 950 },
                    FileUploadOrderType::Cancel { id: 1 },
                ]
            );
        },
        other => panic!("expected a parsed file, got {:?}", other),
    }
    match choose_file("empty.txt", 0, "") {
        FileChoice::Parsed { orders, lines } => {
            assert_eq!(lines, 0);
            assert!(orders.is_empty());
        },
        other => panic!("expected a parsed file, got {:?}", other),
    }
}

#[test]
fn preview_keeps_both_ends_of_long_files() {
    let short: Vec<FileUploadOrderType> = (1..=10).map(|id| FileUploadOrderType::Cancel { id }).collect();
    let rows = preview_rows(&short);
    assert_eq!(rows.len(), 10);
    assert_eq!(rows[9].order_id, "10");
    assert_eq!(rows[9].row_id, "preview-row-9");

    let long: Vec<FileUploadOrderType> = (1..=11).map(|id| FileUploadOrderType::Cancel { id }).collect();
    let rows = preview_rows(&long);
    assert_eq!(rows.len(), 12);
    let ids: Vec<&str> = rows.iter().map(|r| r.order_id.as_str()).collect();
    assert_eq!(ids, vec!["1", "2", "3", "4", "5", "\u{22EE}", "\u{22EE}", "7", "8", "9", "10", "11"]);
    let row_ids: Vec<&str> = rows.iter().map(|r| r.row_id.as_str()).collect();
    assert_eq!(row_ids[5], "preview-row-5");
    assert_eq!(row_ids[6], "preview-row-6");
    assert_eq!(row_ids[11], "preview-row-11");
    assert_eq!(rows[5].price, "\u{22EE}");
}
