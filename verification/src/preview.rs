//! What the browser does with a chosen order file before uploading it:
//! which files it refuses, which it parses itself, and the rows of the
//! preview table that shows the parsed orders.
use vstd::prelude::*;
use crate::orderbook::BidOrAsk;
use crate::parser::{FileUploadOrder, FileUploadOrderType, order_line, lowercase, to_lowercase};
use crate::text::{decimal, decimal_text, digit_char, push_all, chars_to_string, str_chars, split_on, lemma_split_nonempty};

verus! {

/// One order of an upload, as the preview table shows it.
#[derive(Clone, Debug)]
pub struct PreviewRow {
    pub row_id: String,
    pub ordertype: String,
    pub order_id: String,
    pub side: String,
    pub shares: String,
    pub price: String,
}

/// The name of a side: "BID" or "ASK".
pub open spec fn side_name(s: BidOrAsk) -> Seq<char> {
    match s {
        BidOrAsk::Bid => seq!['B', 'I', 'D'],
        BidOrAsk::Ask => seq!['A', 'S', 'K'],
    }
}

/// A price in hundredths written with two decimal places, as
/// `rust_decimal` prints a price of scale two: "10.50", "-0.05".
pub open spec fn price_text(p: int) -> Seq<char> {
    let a: nat = if p < 0 { (-p) as nat } else { p as nat };
    (if p < 0 { seq!['-'] } else { Seq::empty() }) + decimal_text(a / 100) + seq!['.'] + seq![
        digit_char((a % 100) / 10),
        digit_char(a % 10),
    ]
}

impl BidOrAsk {
    /// The name of the side: "BID" or "ASK".
    pub fn to_text(&self) -> (r: String)
        ensures
            r@ == side_name(*self),
    {
        proof {
            reveal_strlit("BID");
            reveal_strlit("ASK");
        }
        match self {
            BidOrAsk::Bid => "BID".to_owned(),
            BidOrAsk::Ask => "ASK".to_owned(),
        }
    }
}

/// A price in hundredths with two decimal places.
pub fn price_to_text(p: i128) -> (r: String)
    ensures
        r@ == price_text(p as int),
{
    let a: u128 = if p < 0 {
        (-(p as i128 + 1)) as u128 + 1
    } else {
        p as u128
    };
    let mut t: Vec<char> = Vec::new();
    if p < 0 {
        t.push('-');
    }
    push_all(&mut t, decimal(a / 100).as_slice());
    t.push('.');
    let tens = decimal((a % 100) / 10);
    let ones = decimal(a % 10);
    proof {
        assert(decimal_text(((a % 100) / 10) as nat) == seq![digit_char(((a % 100) / 10) as nat)]);
        assert(decimal_text((a % 10) as nat) == seq![digit_char((a % 10) as nat)]);
    }
    push_all(&mut t, tens.as_slice());
    push_all(&mut t, ones.as_slice());
    proof {
        assert(t@ =~= price_text(p as int));
    }
    chars_to_string(t.as_slice())
}

/// The row id of the `idx`-th preview row: "preview-row-<idx>".
pub open spec fn row_id_text(idx: nat) -> Seq<char> {
    "preview-row-"@ + decimal_text(idx)
}

/// Row `r` shows order `o` as the `idx`-th row: its type, id, side, shares
/// and price as text, "-" where the order has none.
pub open spec fn row_shows(r: PreviewRow, idx: nat, o: FileUploadOrderType) -> bool {
    &&& r.row_id@ == row_id_text(idx)
    &&& match o {
            FileUploadOrderType::Add { id, side, shares, price } => {
                &&& r.ordertype@ == seq!['A', 'D', 'D']
                &&& r.order_id@ == decimal_text(id as nat)
                &&& r.side@ == side_name(side)
                &&& r.shares@ == decimal_text(shares as nat)
                &&& r.price@ == price_text(price as int)
            },
            FileUploadOrderType::Modify { id, shares, price } => {
                &&& r.ordertype@ == seq!['M', 'O', 'D', 'I', 'F', 'Y']
                &&& r.order_id@ == decimal_text(id as nat)
                &&& r.side@ == seq!['-']
                &&& r.shares@ == decimal_text(shares as nat)
                &&& r.price@ == price_text(price as int)
            },
            FileUploadOrderType::Cancel { id } => {
                &&& r.ordertype@ == seq!['C', 'A', 'N', 'C', 'E', 'L']
                &&& r.order_id@ == decimal_text(id as nat)
                &&& r.side@ == seq!['-']
                &&& r.shares@ == seq!['-']
                &&& r.price@ == seq!['-']
            },
        }
}

/// The preview row of the `idx`-th order.
pub fn get_preview_row(idx: usize, order: &FileUploadOrderType) -> (r: PreviewRow)
    ensures
        row_shows(r, idx as nat, *order),
{
    proof {
        reveal_strlit("ADD");
        reveal_strlit("MODIFY");
        reveal_strlit("CANCEL");
        reveal_strlit("-");
        assert("ADD"@ =~= seq!['A', 'D', 'D']);
        assert("MODIFY"@ =~= seq!['M', 'O', 'D', 'I', 'F', 'Y']);
        assert("CANCEL"@ =~= seq!['C', 'A', 'N', 'C', 'E', 'L']);
        assert("-"@ =~= seq!['-']);
    }
    let row_id = row_id_string(idx);
    match *order {
        FileUploadOrderType::Add { id, side, shares, price } => PreviewRow {
            row_id,
            ordertype: "ADD".to_owned(),
            order_id: chars_to_string(decimal(id as u128).as_slice()),
            side: side.to_text(),
            shares: chars_to_string(decimal(shares as u128).as_slice()),
            price: price_to_text(price),
        },
        FileUploadOrderType::Modify { id, shares, price } => PreviewRow {
            row_id,
            ordertype: "MODIFY".to_owned(),
            order_id: chars_to_string(decimal(id as u128).as_slice()),
            side: "-".to_owned(),
            shares: chars_to_string(decimal(shares as u128).as_slice()),
            price: price_to_text(price),
        },
        FileUploadOrderType::Cancel { id } => PreviewRow {
            row_id,
            ordertype: "CANCEL".to_owned(),
            order_id: chars_to_string(decimal(id as u128).as_slice()),
            side: "-".to_owned(),
            shares: "-".to_owned(),
            price: "-".to_owned(),
        },
    }
}

/// The character the preview shows in the rows that stand for the orders
/// left out: a vertical ellipsis.
pub open spec fn ellipsis() -> char {
    '\u{22EE}'
}

/// Row `r` is the `idx`-th row and stands for orders left out.
pub open spec fn ellipsis_row(r: PreviewRow, idx: nat) -> bool {
    &&& r.row_id@ == row_id_text(idx)
    &&& r.ordertype@ == seq![ellipsis()]
    &&& r.order_id@ == seq![ellipsis()]
    &&& r.side@ == seq![ellipsis()]
    &&& r.shares@ == seq![ellipsis()]
    &&& r.price@ == seq![ellipsis()]
}

fn row_id_string(idx: usize) -> (r: String)
    ensures
        r@ == row_id_text(idx as nat),
{
    proof {
        reveal_strlit("preview-row-");
    }
    let mut row_id = "preview-row-".to_owned();
    let n = chars_to_string(decimal(idx as u128).as_slice());
    vstd::string::StringExecFns::append(&mut row_id, n.as_str());
    row_id
}

fn ellipsis_string() -> (r: String)
    ensures
        r@ == seq![ellipsis()],
{
    let mut v: Vec<char> = Vec::new();
    v.push('\u{22EE}');
    chars_to_string(v.as_slice())
}

fn get_ellipsis_row(idx: usize) -> (r: PreviewRow)
    ensures
        ellipsis_row(r, idx as nat),
{
    PreviewRow {
        row_id: row_id_string(idx),
        ordertype: ellipsis_string(),
        order_id: ellipsis_string(),
        side: ellipsis_string(),
        shares: ellipsis_string(),
        price: ellipsis_string(),
    }
}

/// The rows of the preview table: every order when there are at most ten;
/// otherwise the first five, two ellipsis rows (ids 5 and 6) and the last
/// five (ids 7 to 11).
pub fn preview_rows(orders: &Vec<FileUploadOrderType>) -> (r: Vec<PreviewRow>)
    ensures
        orders@.len() <= 10 ==> {
            &&& r@.len() == orders@.len()
            &&& forall|i: int| 0 <= i < orders@.len() ==> row_shows(#[trigger] r@[i], i as nat, orders@[i])
        },
        orders@.len() > 10 ==> {
            &&& r@.len() == 12
            &&& forall|i: int| 0 <= i < 5 ==> row_shows(#[trigger] r@[i], i as nat, orders@[i])
            &&& ellipsis_row(r@[5], 5)
            &&& ellipsis_row(r@[6], 6)
            &&& forall|i: int| 7 <= i < 12 ==> row_shows(#[trigger] r@[i], i as nat, orders@[orders@.len() - 12 + i])
        },
{
    let len = orders.len();
    let max: usize = 5;
    let mut rows: Vec<PreviewRow> = Vec::new();
    if len <= 2 * max {
        let mut i: usize = 0;
        while i < len
            invariant
                i <= len == orders@.len(),
                rows@.len() == i,
                forall|k: int| 0 <= k < i ==> row_shows(#[trigger] rows@[k], k as nat, orders@[k]),
            decreases len - i,
        {
            rows.push(get_preview_row(i, &orders[i]));
            i = i + 1;
        }
    } else {
        let mut i: usize = 0;
        while i < max
            invariant
                i <= max == 5,
                len == orders@.len() > 10,
                rows@.len() == i,
                forall|k: int| 0 <= k < i ==> row_shows(#[trigger] rows@[k], k as nat, orders@[k]),
            decreases max - i,
        {
            rows.push(get_preview_row(i, &orders[i]));
            i = i + 1;
        }
        rows.push(get_ellipsis_row(max));
        rows.push(get_ellipsis_row(max + 1));
        let mut j: usize = 0;
        while j < max
            invariant
                j <= max == 5,
                len == orders@.len() > 10,
                rows@.len() == 7 + j,
                forall|k: int| 0 <= k < 5 ==> row_shows(#[trigger] rows@[k], k as nat, orders@[k]),
                ellipsis_row(rows@[5], 5),
                ellipsis_row(rows@[6], 6),
                forall|k: int| 7 <= k < 7 + j ==> row_shows(#[trigger] rows@[k], k as nat, orders@[len - 12 + k]),
            decreases max - j,
        {
            rows.push(get_preview_row(max + 2 + j, &orders[len - max + j]));
            j = j + 1;
        }
    }
    rows
}

/// The largest file, in bytes, that the browser parses and previews itself.
pub const MAX_PREVIEWABLE_FILESIZE: u64 = 1024 * 1024 * 5;

/// A line without the carriage return that ends it, if one does.
pub open spec fn without_cr(l: Seq<char>) -> Seq<char> {
    if l.len() > 0 && l.last() == '\r' {
        l.drop_last()
    } else {
        l
    }
}

/// The lines of a text as `str::lines` yields them: the pieces between
/// newlines, each without the carriage return before its newline; the
/// last piece only when it is not empty, and as it stands.
pub open spec fn text_lines(s: Seq<char>) -> Seq<Seq<char>> {
    let parts = split_on(s, '\n');
    let ended = parts.drop_last().map_values(|l: Seq<char>| without_cr(l));
    if parts.last().len() == 0 {
        ended
    } else {
        ended.push(parts.last())
    }
}

/// The orders among lines, in order; a line that is no order is left out.
pub open spec fn valid_orders(lines: Seq<Seq<char>>) -> Seq<FileUploadOrderType>
    decreases lines.len(),
{
    if lines.len() == 0 {
        Seq::empty()
    } else {
        match order_line(lines.last()) {
            Ok(o) => valid_orders(lines.drop_last()).push(o),
            Err(_) => valid_orders(lines.drop_last()),
        }
    }
}

/// A file name that ends in ".txt", in any case.
pub open spec fn is_text_file_name(name: Seq<char>) -> bool {
    let l = lowercase(name);
    l.len() >= 4 && l.subrange(l.len() - 4, l.len() as int) == seq!['.', 't', 'x', 't']
}

/// What the browser makes of a chosen file.
#[derive(Debug)]
pub enum FileChoice {
    /// The name does not end in ".txt": the file is refused.
    NotText,
    /// Too large to parse in the browser: it is sent as it stands.
    Large,
    /// Parsed in the browser: the orders found and how many lines were read.
    Parsed { orders: Vec<FileUploadOrderType>, lines: usize },
}

fn chars_between(s: &Vec<char>, from: usize, to: usize) -> (r: Vec<char>)
    requires
        from <= to <= s@.len(),
    ensures
        r@ == s@.subrange(from as int, to as int),
{
    let mut r: Vec<char> = Vec::new();
    let mut i = from;
    while i < to
        invariant
            from <= i <= to <= s@.len(),
            r@ =~= s@.subrange(from as int, i as int),
        decreases to - i,
    {
        r.push(s[i]);
        i = i + 1;
    }
    r
}

fn lines_of(s: &Vec<char>) -> (r: Vec<Vec<char>>)
    ensures
        r@.len() == text_lines(s@).len(),
        forall|i: int| 0 <= i < r@.len() ==> (#[trigger] r@[i])@ == text_lines(s@)[i],
{
    let mut r: Vec<Vec<char>> = Vec::new();
    let mut start: usize = 0;
    let mut i: usize = 0;
    let n = s.len();
    proof {
        assert(s@.take(0) =~= Seq::<char>::empty());
    }
    while i < n
        invariant
            0 <= start <= i <= n == s@.len(),
            r@.len() + 1 == split_on(s@.take(i as int), '\n').len(),
            forall|k: int| 0 <= k < r@.len() ==> (#[trigger] r@[k])@ == without_cr(split_on(s@.take(i as int), '\n')[k]),
            split_on(s@.take(i as int), '\n').last() == s@.subrange(start as int, i as int),
        decreases n - i,
    {
        let ghost pre = s@.take(i as int);
        let ghost post = s@.take(i + 1);
        proof {
            assert(post.drop_last() =~= pre);
            assert(post.last() == s@[i as int]);
            lemma_split_nonempty(pre, '\n');
        }
        if s[i] == '\n' {
            let piece = if i > start && s[i - 1] == '\r' {
                chars_between(s, start, i - 1)
            } else {
                chars_between(s, start, i)
            };
            proof {
                let t = s@.subrange(start as int, i as int);
                if i > start {
                    assert(t.last() == s@[i - 1]);
                    assert(t.drop_last() =~= s@.subrange(start as int, i - 1));
                }
                assert(piece@ == without_cr(t));
                assert(split_on(post, '\n') == split_on(pre, '\n').push(Seq::empty()));
            }
            r.push(piece);
            start = i + 1;
            proof {
                assert(s@.subrange(start as int, i + 1) =~= Seq::<char>::empty());
            }
        } else {
            proof {
                let parts = split_on(pre, '\n');
                assert(split_on(post, '\n') == parts.update(parts.len() - 1, parts.last().push(s@[i as int])));
                assert(s@.subrange(start as int, i + 1) =~= s@.subrange(start as int, i as int).push(s@[i as int]));
            }
        }
        i = i + 1;
    }
    proof {
        assert(s@.take(n as int) =~= s@);
        lemma_split_nonempty(s@, '\n');
    }
    let ghost parts = split_on(s@, '\n');
    let ghost ended = parts.drop_last().map_values(|l: Seq<char>| without_cr(l));
    proof {
        assert forall|k: int| 0 <= k < r@.len() implies (#[trigger] r@[k])@ == ended[k] by {}
    }
    if start < n {
        let last = chars_between(s, start, n);
        r.push(last);
        proof {
            assert(parts.last().len() > 0);
            assert forall|k: int| 0 <= k < r@.len() implies (#[trigger] r@[k])@ == text_lines(s@)[k] by {
                if k < ended.len() {
                    assert(text_lines(s@)[k] == ended[k]);
                }
            }
        }
    } else {
        proof {
            assert(parts.last().len() == 0);
        }
    }
    r
}

/// Decides what the browser does with a chosen file: a name that does not
/// end in ".txt" (in any case) is refused; a file of 5 MB or more is sent
/// unparsed; a smaller one is read line by line, keeping the lines that are
/// orders and counting every line.
pub fn choose_file(name: &str, size: u64, contents: &str) -> (r: FileChoice)
    ensures
        !is_text_file_name(name@) ==> r is NotText,
        is_text_file_name(name@) && size >= MAX_PREVIEWABLE_FILESIZE ==> r is Large,
        is_text_file_name(name@) && size < MAX_PREVIEWABLE_FILESIZE ==> (r matches FileChoice::Parsed { orders, lines }
            && orders@ == valid_orders(text_lines(contents@)) && lines == text_lines(contents@).len()),
{
    let lowered = to_lowercase(&str_chars(name));
    let k = lowered.len();
    if !(k >= 4 && lowered[k - 4] == '.' && lowered[k - 3] == 't' && lowered[k - 2] == 'x' && lowered[k - 1] == 't') {
        proof {
            if k >= 4 {
                let t = lowered@.subrange(k - 4, k as int);
                assert(t[0] == lowered@[k - 4]);
                assert(t[1] == lowered@[k - 3]);
                assert(t[2] == lowered@[k - 2]);
                assert(t[3] == lowered@[k - 1]);
            }
        }
        return FileChoice::NotText;
    }
    proof {
        assert(lowered@.subrange(k - 4, k as int) =~= seq!['.', 't', 'x', 't']);
    }
    if size >= MAX_PREVIEWABLE_FILESIZE {
        return FileChoice::Large;
    }
    let text = str_chars(contents);
    let lines = lines_of(&text);
    let ghost all = text_lines(contents@);
    let mut orders: Vec<FileUploadOrderType> = Vec::new();
    let mut i: usize = 0;
    proof {
        assert(all.take(0) =~= Seq::<Seq<char>>::empty());
    }
    while i < lines.len()
        invariant
            i <= lines@.len() == all.len(),
            all == text_lines(contents@),
            forall|j: int| 0 <= j < lines@.len() ==> (#[trigger] lines@[j])@ == all[j],
            orders@ == valid_orders(all.take(i as int)),
        decreases lines@.len() - i,
    {
        proof {
            assert(all.take(i + 1).drop_last() =~= all.take(i as int));
            assert(all.take(i + 1).last() == lines@[i as int]@);
        }
        match FileUploadOrder::parse(&lines[i]) {
            Ok(o) => orders.push(o.order),
            Err(_) => {},
        }
        i = i + 1;
    }
    proof {
        assert(all.take(lines@.len() as int) =~= all);
    }
    FileChoice::Parsed { orders, lines: lines.len() }
}

} // verus!
