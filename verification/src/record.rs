//! Transaction records and the line parser: layout detection, field
//! selection, and the decoding of the date and amount fields.

use vstd::prelude::*;
use vstd::string::StringExecFns;

use crate::amount::spec_parse_amount;
use crate::amount::spec_strip_nbsp;
use crate::amount::strip_nbsp;
use crate::amount::Amount;
use crate::amount::parse_amount;
use crate::date::spec_parse_date;
use crate::date::parse_date;
use crate::date::Date;
use crate::text::contains_char;
use crate::text::lines_of;
use crate::text::spec_lines;
use crate::text::spec_split;
use crate::text::spec_unescape;
use crate::text::split_char;
use crate::text::unescape_amp;

verus! {

/// Why a line failed to parse.
#[derive(Clone, Copy, Debug, PartialEq, Eq, Structural)]
pub enum ParseErrorKind {
    /// The line lacks the fields its layout calls for.
    MalformedRecord,
    /// The amount field is not a number in European notation after cleanup.
    InvalidAmount,
    /// The date field deviates from `YYYY-MM-DD` or names an impossible
    /// calendar date.
    InvalidDate,
}

/// A failed batch parse: the first offending line and what was wrong
/// with it.
#[derive(Clone, Copy, Debug, PartialEq, Eq, Structural)]
pub struct ParseError {
    /// Zero-based index of the first line that failed.
    pub line: usize,
    pub kind: ParseErrorKind,
}

/// One parsed transaction.
#[derive(Clone, Debug, PartialEq)]
pub struct Item {
    pub date: Date,
    pub description: String,
    pub amount: Amount,
    pub category: String,
}

/// The mathematical content of an [`Item`]: its text fields as character
/// sequences.
pub struct ItemView {
    pub date: Date,
    pub description: Seq<char>,
    pub amount: Amount,
    pub category: Seq<char>,
}

impl View for Item {
    type V = ItemView;

    open spec fn view(&self) -> ItemView {
        ItemView {
            date: self.date,
            description: self.description@,
            amount: self.amount,
            category: self.category@,
        }
    }
}

impl Item {
    /// Assembles a record from its four decoded fields.
    pub fn new(date: Date, description: String, amount: Amount, category: String) -> (r: Self)
        ensures
            r@ == (ItemView { date, description: description@, amount, category: category@ }),
    {
        Self { date, description, amount, category }
    }
}

/// Decodes the four selected fields of a line: the amount is stripped of
/// non-breaking spaces and read as a European-notation number, the date
/// must match `YYYY-MM-DD` strictly, and the description and category are
/// taken verbatim. A bad amount is reported ahead of a bad date.
pub open spec fn spec_parse_fields(
    date_f: Seq<char>,
    desc_f: Seq<char>,
    amount_f: Seq<char>,
    cat_f: Seq<char>,
) -> Result<ItemView, ParseErrorKind> {
    match spec_parse_amount(spec_strip_nbsp(amount_f)) {
        None => Err(ParseErrorKind::InvalidAmount),
        Some(amount) => match spec_parse_date(date_f) {
            None => Err(ParseErrorKind::InvalidDate),
            Some(date) => Ok(
                ItemView { date, description: desc_f, amount, category: cat_f },
            ),
        },
    }
}

/// Parses one statement line. A line holding a double quote is in the
/// quoted layout: the HTML entity `&amp;` is rewritten to `&` across the
/// whole line before splitting, and the date, description, amount and
/// category sit in fields 2, 3, 6 and 8. Any other line is in the unquoted
/// layout: fields 3, 4, 6 and 8. A line with fewer than nine
/// semicolon-separated fields is malformed.
pub open spec fn spec_parse_line(s: Seq<char>) -> Result<ItemView, ParseErrorKind> {
    let quoted = s.contains('"');
    let t = if quoted {
        spec_unescape(s)
    } else {
        s
    };
    let fs = spec_split(t, ';');
    if fs.len() < 9 {
        Err(ParseErrorKind::MalformedRecord)
    } else if quoted {
        spec_parse_fields(fs[2], fs[3], fs[6], fs[8])
    } else {
        spec_parse_fields(fs[3], fs[4], fs[6], fs[8])
    }
}

/// On an unquoted line that splits into at least nine fields, the parser
/// reads the date from field 3, the description from field 4, the amount
/// from field 6 and the category from field 8, exactly.
pub proof fn lemma_unquoted_field_selection(s: Seq<char>)
    requires
        !s.contains('"'),
        spec_split(s, ';').len() >= 9,
    ensures
        ({
            let fs = spec_split(s, ';');
            &&& spec_parse_line(s) == spec_parse_fields(fs[3], fs[4], fs[6], fs[8])
            &&& (spec_parse_line(s) matches Ok(it) ==> {
                &&& Some(it.date) == spec_parse_date(fs[3])
                &&& it.description == fs[4]
                &&& Some(it.amount) == spec_parse_amount(spec_strip_nbsp(fs[6]))
                &&& it.category == fs[8]
            })
        }),
{
}

/// On a quoted line (one holding a double quote), `&amp;` is first
/// rewritten to `&` across the whole line, and the parser then reads the
/// date, description, amount and category from fields 2, 3, 6 and 8 of the
/// rewritten line, exactly.
pub proof fn lemma_quoted_field_selection(s: Seq<char>)
    requires
        s.contains('"'),
        spec_split(spec_unescape(s), ';').len() >= 9,
    ensures
        ({
            let fs = spec_split(spec_unescape(s), ';');
            &&& spec_parse_line(s) == spec_parse_fields(fs[2], fs[3], fs[6], fs[8])
            &&& (spec_parse_line(s) matches Ok(it) ==> {
                &&& Some(it.date) == spec_parse_date(fs[2])
                &&& it.description == fs[3]
                &&& Some(it.amount) == spec_parse_amount(spec_strip_nbsp(fs[6]))
                &&& it.category == fs[8]
            })
        }),
{
}

/// A line with too few fields for its layout is malformed, whatever its
/// fields hold.
pub proof fn lemma_short_line_malformed(s: Seq<char>)
    requires
        ({
            let t = if s.contains('"') {
                spec_unescape(s)
            } else {
                s
            };
            spec_split(t, ';').len() < 9
        }),
    ensures
        spec_parse_line(s) == Err::<ItemView, ParseErrorKind>(ParseErrorKind::MalformedRecord),
{
}

/// Every record a line parses to holds a possible calendar date: a line
/// either parses completely, into fully decoded fields, or fails.
pub proof fn lemma_parsed_date_valid(s: Seq<char>)
    ensures
        spec_parse_line(s) matches Ok(it) ==> crate::date::date_valid(it.date),
{
    let quoted = s.contains('"');
    let t = if quoted {
        spec_unescape(s)
    } else {
        s
    };
    let fs = spec_split(t, ';');
    if fs.len() >= 9 {
        if quoted {
            crate::date::lemma_parse_date_valid(fs[2]);
        } else {
            crate::date::lemma_parse_date_valid(fs[3]);
        }
    }
}

/// Parses one statement line, as [`spec_parse_line`] describes.
pub fn parse_line(line: &str) -> (r: Result<Item, ParseErrorKind>)
    ensures
        match r {
            Ok(it) => spec_parse_line(line@) == Ok::<ItemView, ParseErrorKind>(it@),
            Err(k) => spec_parse_line(line@) == Err::<ItemView, ParseErrorKind>(k),
        },
{
    let quoted = contains_char(line, '"');
    let fields: Vec<String> = if quoted {
        let fixed = unescape_amp(line);
        split_char(fixed.as_str(), ';')
    } else {
        split_char(line, ';')
    };
    let ghost fs = fields@.map_values(|f: String| f@);
    if fields.len() < 9 {
        return Err(ParseErrorKind::MalformedRecord);
    }
    let date_idx: usize = if quoted {
        2
    } else {
        3
    };
    let desc_idx: usize = if quoted {
        3
    } else {
        4
    };
    let cleaned = strip_nbsp(fields[6].as_str());
    let amount = match parse_amount(cleaned.as_str()) {
        Some(a) => a,
        None => {
            return Err(ParseErrorKind::InvalidAmount);
        },
    };
    let date = match parse_date(fields[date_idx].as_str()) {
        Some(d) => d,
        None => {
            return Err(ParseErrorKind::InvalidDate);
        },
    };
    let description = fields[desc_idx].clone();
    let category = fields[8].clone();
    Ok(Item::new(date, description, amount, category))
}

/// Parses a whole statement, one transaction per line, failing fast: the
/// result covers every line in order, or reports the first line that does
/// not parse and why.
pub fn process_lines(data: &str) -> (r: Result<Vec<Item>, ParseError>)
    ensures
        ({
            let lns = spec_lines(data@);
            match r {
                Ok(items) => {
                    &&& items@.len() == lns.len()
                    &&& forall|i: int|
                        0 <= i < lns.len() ==> #[trigger] spec_parse_line(lns[i]) == Ok::<
                            ItemView,
                            ParseErrorKind,
                        >(items@[i]@)
                },
                Err(e) => {
                    &&& e.line < lns.len()
                    &&& spec_parse_line(lns[e.line as int]) == Err::<ItemView, ParseErrorKind>(
                        e.kind,
                    )
                    &&& forall|j: int| 0 <= j < e.line ==> (#[trigger] spec_parse_line(lns[j])) is Ok
                },
            }
        }),
{
    let lines = lines_of(data);
    let ghost lns = spec_lines(data@);
    let mut items: Vec<Item> = Vec::new();
    let mut idx: usize = 0;
    while idx < lines.len()
        invariant
            lns == spec_lines(data@),
            lines@.map_values(|l: String| l@) == lns,
            idx <= lines@.len(),
            items@.len() == idx,
            forall|i: int|
                0 <= i < idx ==> #[trigger] spec_parse_line(lns[i]) == Ok::<
                    ItemView,
                    ParseErrorKind,
                >(items@[i]@),
        decreases lines@.len() - idx,
    {
        match parse_line(lines[idx].as_str()) {
            Ok(it) => {
                items.push(it);
            },
            Err(kind) => {
                proof {
                    assert(lns[idx as int] == lines@.map_values(|l: String| l@)[idx as int]);
                }
                return Err(ParseError { line: idx, kind });
            },
        }
        idx += 1;
    }
    Ok(items)
}

} // verus!
