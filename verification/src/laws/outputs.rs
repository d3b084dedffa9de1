//! Laws of what is written and handed on: reports, the texts of charts, and command lines.

use vstd::prelude::*;
use vstd::string::*;

use crate::chart::{is_chart, legend_line, png_name, slice_views, slices_of, PngChart};
use crate::document::{read_document, Json};
use crate::elevation::{command_line, quoted, quotes_escaped, signed_text, spaced, utf16};
use crate::elevation::utf16_units;
use crate::format::{fixed_text, grouped};
use crate::json::{escape, escaped, json_text};
use crate::names::sanitized;
use crate::records::{ScanSource, StatView};
use crate::report::{json_name, lemma_report_reads_back, report_text, stat_value};
use crate::statistics::sum_of_counts;
use crate::text::decimal_text;

verus! {

// ------------------------------------------------------------
// JSON strings
// ------------------------------------------------------------

/// The sixteen hexadecimal digits, in order.
pub open spec fn hex_digits() -> Seq<char> {
    seq!['0', '1', '2', '3', '4', '5', '6', '7', '8', '9', 'a', 'b', 'c', 'd', 'e', 'f']
}

/// Which characters stand for themselves inside a JSON string, and how the others are
/// written: quotation marks, backslashes, line ends and tabs behind a backslash, and any
/// other control character with its code in four hexadecimal digits.
pub proof fn lemma_escapes(c: char)
    ensures
        c >= ' ' && c != '"' && c != '\\' && !('\u{7f}' <= c <= '\u{9f}') ==> escape(c) == seq![c],
        c == '"' || c == '\\' ==> escape(c) == seq!['\\', c],
        c == '\n' ==> escape(c) == seq!['\\', 'n'],
        c == '\r' ==> escape(c) == seq!['\\', 'r'],
        c == '\t' ==> escape(c) == seq!['\\', 't'],
        (c < ' ' && c != '\n' && c != '\r' && c != '\t') || '\u{7f}' <= c <= '\u{9f}' ==> {
            &&& escape(c).len() == 6
            &&& escape(c).take(4) == seq!['\\', 'u', '0', '0']
            &&& escape(c)[4] == hex_digits()[c as int / 16]
            &&& escape(c)[5] == hex_digits()[c as int % 16]
        },
{
    if (c < ' ' && c != '\n' && c != '\r' && c != '\t') || '\u{7f}' <= c <= '\u{9f}' {
        assert(escape(c).take(4) =~= seq!['\\', 'u', '0', '0']);
    }
}

/// A text is escaped character by character, and stands between quotation marks.
pub proof fn lemma_escaped_by_character(a: Seq<char>, b: Seq<char>, c: char)
    ensures
        escaped(Seq::empty()) == Seq::<char>::empty(),
        escaped(seq![c]) == escape(c),
        escaped(a + b) == escaped(a) + escaped(b),
        json_text(a) == seq!['"'] + escaped(a) + seq!['"'],
    decreases a.len(),
{
    reveal_with_fuel(escaped, 2);
    assert(seq![c].drop_first() =~= Seq::empty());
    assert(escape(c) + Seq::<char>::empty() =~= escape(c));
    assert(json_text(a) =~= seq!['"'] + escaped(a) + seq!['"']);
    if a.len() == 0 {
        assert(a + b =~= b);
        assert(escaped(a) + escaped(b) =~= escaped(b));
    } else {
        lemma_escaped_by_character(a.drop_first(), b, c);
        assert((a + b).drop_first() =~= a.drop_first() + b);
        assert(escaped(a) + escaped(b) =~= escape(a.first()) + (escaped(a.drop_first()) + escaped(
            b,
        )));
    }
}

// ------------------------------------------------------------
// Reports
// ------------------------------------------------------------

/// Whether a document is that of a report: an object with the name of the program, the
/// source, the two totals and a list.
pub open spec fn is_report_document(
    document: Json,
    source: Seq<char>,
    total_files: nat,
    total_bytes: nat,
    items: Seq<Json>,
) -> bool {
    document == Json::Object(
        seq![
            ("application"@, Json::Text("Extension Scanner"@)),
            ("source"@, Json::Text(source)),
            ("total_files"@, Json::Number(decimal_text(total_files))),
            ("total_bytes"@, Json::Number(decimal_text(total_bytes))),
            ("extensions"@, Json::List(items)),
        ],
    )
}

/// A reader gets an object out of a report that holds the source, the number of files, the
/// number of bytes, and a list with one item for each line of the statistics, in their
/// order: the extension, its count, its bytes and its percentage to six decimals.
pub proof fn lemma_report_holds_every_line(
    source: Seq<char>,
    stats: Seq<StatView>,
    total_bytes: nat,
    total_files: nat,
) -> (items: Seq<Json>)
    ensures
        read_document(report_text(source, stats, total_bytes, total_files)) matches Some(document)
            && is_report_document(document, source, total_files, total_bytes, items),
        items.len() == stats.len(),
        forall|i: int|
            0 <= i < stats.len() ==> #[trigger] items[i] == Json::Object(
                seq![
                    ("extension"@, Json::Text(stats[i].extension)),
                    ("count"@, Json::Number(decimal_text(stats[i].count))),
                    ("bytes"@, Json::Number(decimal_text(stats[i].bytes))),
                    ("percentage"@, Json::Number(fixed_text(stats[i].percentage, 6))),
                ],
            ),
{
    lemma_report_reads_back(source, stats, total_bytes, total_files);
    stats.map_values(|s: StatView| stat_value(s))
}

/// The files that a scan writes are named after the source.
pub proof fn lemma_output_names(source: Seq<char>)
    ensures
        png_name(source) == seq!['p', 'i', 'e', '_'] + sanitized(source) + seq![
            '.',
            'p',
            'n',
            'g',
        ],
        json_name(source) == seq!['e', 'x', 't', 'e', 'n', 's', 'i', 'o', 'n', 's', '_']
            + sanitized(source) + seq!['.', 'j', 's', 'o', 'n'],
{
    reveal_strlit("pie_");
    reveal_strlit(".png");
    reveal_strlit("extensions_");
    reveal_strlit(".json");
    assert("pie_"@ =~= seq!['p', 'i', 'e', '_']);
    assert(".png"@ =~= seq!['.', 'p', 'n', 'g']);
    assert("extensions_"@ =~= seq!['e', 'x', 't', 'e', 'n', 's', 'i', 'o', 'n', 's', '_']);
    assert(".json"@ =~= seq!['.', 'j', 's', 'o', 'n']);
}

/// A folder is named by its last component and an archive by its stem, where there is one.
pub proof fn lemma_source_names(source: ScanSource)
    ensures
        source matches ScanSource::Folder(path) ==> source.path() == path && source.name_text()
            == match path.file_name {
            Some(name) => name@,
            None => seq!['f', 'o', 'l', 'd', 'e', 'r'],
        },
        source matches ScanSource::Zip(path) ==> source.path() == path && source.name_text()
            == match path.file_stem {
            Some(stem) => stem@,
            None => seq!['a', 'r', 'c', 'h', 'i', 'v', 'e'],
        },
{
    reveal_strlit("folder");
    reveal_strlit("archive");
    assert("folder"@ =~= seq!['f', 'o', 'l', 'd', 'e', 'r']);
    assert("archive"@ =~= seq!['a', 'r', 'c', 'h', 'i', 'v', 'e']);
}

/// A chart tells the name of the source and the number of all files, and has a line of the
/// legend for each slice.
pub proof fn lemma_chart_tells(chart: PngChart, source: ScanSource, stats: Seq<StatView>)
    requires
        is_chart(chart, source, stats),
    ensures
        chart.file_name@ == png_name(source.name_text()),
        chart.title@ == "File Extension Distribution - "@ + sanitized(source.name_text()),
        chart.total@ == "Total files: "@ + grouped(decimal_text(sum_of_counts(stats))),
        chart.slices@.len() == slices_of(stats).len(),
        forall|i: int|
            0 <= i < chart.slices@.len() ==> (#[trigger] chart.slices@[i])@ == slices_of(stats)[i],
        chart.legend@.len() == chart.slices@.len(),
        forall|i: int|
            0 <= i < chart.legend@.len() ==> (#[trigger] chart.legend@[i])@ == legend_line(
                slices_of(stats),
                sum_of_counts(stats),
                i,
            ),
{
    let views = slice_views(chart.slices@);
    assert forall|i: int| 0 <= i < chart.slices@.len() implies (#[trigger] chart.slices@[i])@
        == slices_of(stats)[i] by {
        assert(views[i] == chart.slices@[i]@);
    }
}

// ------------------------------------------------------------
// Command lines
// ------------------------------------------------------------

/// An argument without spaces, tabs and quotation marks stands for itself. Any other stands
/// between quotation marks, with a backslash before each of its own.
pub proof fn lemma_quoting(s: Seq<char>)
    ensures
        (forall|i: int|
            0 <= i < s.len() ==> (#[trigger] s[i]) != ' ' && s[i] != '\t' && s[i] != '"')
            ==> quoted(s) == s,
        (exists|i: int|
            0 <= i < s.len() && ((#[trigger] s[i]) == ' ' || s[i] == '\t' || s[i] == '"'))
            ==> quoted(s) == seq!['"'] + quotes_escaped(s) + seq!['"'],
{
    assert((seq!['"'] + quotes_escaped(s)).push('"') =~= seq!['"'] + quotes_escaped(s) + seq!['"']);
}

/// Quotation marks are escaped character by character.
pub proof fn lemma_quotes_by_character(a: Seq<char>, b: Seq<char>, c: char)
    ensures
        quotes_escaped(Seq::empty()) == Seq::<char>::empty(),
        c == '"' ==> quotes_escaped(seq![c]) == seq!['\\', '"'],
        c != '"' ==> quotes_escaped(seq![c]) == seq![c],
        quotes_escaped(a + b) == quotes_escaped(a) + quotes_escaped(b),
    decreases a.len(),
{
    reveal_with_fuel(quotes_escaped, 2);
    assert(seq![c].drop_first() =~= Seq::empty());
    assert(seq!['\\', '"'] + Seq::<char>::empty() =~= seq!['\\', '"']);
    assert(seq![c] + Seq::<char>::empty() =~= seq![c]);
    if a.len() == 0 {
        assert(a + b =~= b);
        assert(quotes_escaped(a) + quotes_escaped(b) =~= quotes_escaped(b));
    } else {
        lemma_quotes_by_character(a.drop_first(), b, c);
        assert((a + b).drop_first() =~= a.drop_first() + b);
        assert(quotes_escaped(a) + quotes_escaped(b) =~= quotes_escaped(a + b));
    }
}

/// A command line is its arguments in their order, with one space between each two.
pub proof fn lemma_command_line_by_argument(args: Seq<String>, last: String)
    ensures
        command_line(Seq::empty()) == Seq::<char>::empty(),
        command_line(seq![last]) == quoted(last@),
        args.len() > 0 ==> command_line(args.push(last)) == command_line(args) + seq![' ']
            + quoted(last@),
{
    let quote = |a: String| quoted(a@);
    reveal_with_fuel(spaced, 2);
    assert(Seq::<String>::empty().map_values(quote) =~= Seq::empty());
    assert(seq![last].map_values(quote) =~= seq![quoted(last@)]);
    let parts = args.map_values(quote);
    assert(args.push(last).map_values(quote) =~= parts.push(quoted(last@)));
    assert(parts.push(quoted(last@)).drop_last() =~= parts);
    if args.len() > 0 {
        assert(spaced(parts).push(' ') + quoted(last@) =~= spaced(parts) + seq![' '] + quoted(
            last@,
        ));
    }
}

/// The wide form of a text is made character by character. A character below 65536 is one
/// unit, its code. Any other is a pair of surrogates, which hold the upper and the lower
/// ten binary digits of what its code exceeds 65536 by.
pub proof fn lemma_wide_by_character(a: Seq<char>, b: Seq<char>, c: char)
    ensures
        utf16(Seq::empty()) == Seq::<u16>::empty(),
        c < '\u{10000}' ==> utf16(seq![c]).len() == 1 && utf16(seq![c])[0] == c as int,
        c >= '\u{10000}' ==> {
            &&& utf16(seq![c]).len() == 2
            &&& 0xd800 <= utf16(seq![c])[0] < 0xdc00
            &&& 0xdc00 <= utf16(seq![c])[1] < 0xe000
            &&& (utf16(seq![c])[0] - 0xd800) * 1024 + (utf16(seq![c])[1] - 0xdc00) + 65536
                == c as int
        },
        utf16(a + b) == utf16(a) + utf16(b),
    decreases a.len(),
{
    reveal_with_fuel(utf16, 2);
    assert(seq![c].drop_first() =~= Seq::empty());
    let units = utf16_units(c);
    assert(units + Seq::<u16>::empty() =~= units);
    if c >= '\u{10000}' {
        let rest = (c as nat - 0x10000) as nat;
        assert(rest / 0x400 < 0x400);
        assert(units[0] == 0xd800 + rest / 0x400);
        assert(units[1] == 0xdc00 + rest % 0x400);
    }
    if a.len() == 0 {
        assert(a + b =~= b);
        assert(utf16(a) + utf16(b) =~= utf16(b));
    } else {
        lemma_wide_by_character(a.drop_first(), b, c);
        assert((a + b).drop_first() =~= a.drop_first() + b);
        assert(utf16(a) + utf16(b) =~= utf16(a + b));
    }
}

/// An integer below zero is written as a minus sign and its distance from zero.
pub proof fn lemma_signed_text(n: nat)
    ensures
        signed_text(n as int) == decimal_text(n),
        n > 0 ==> signed_text(-n) == seq!['-'] + decimal_text(n),
{
}

} // verus!
