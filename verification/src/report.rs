//! The report of a scan, as JSON.

use vstd::prelude::*;
use vstd::string::*;

use crate::chart::png_name;
use crate::document::{is_fraction, is_number, is_space, lemma_decimal_is_whole};
use crate::document::{lemma_padded_digits, lemma_plain_text, lemma_read_empty_list};
use crate::document::{lemma_read_item, lemma_read_last_item, lemma_read_last_member};
use crate::document::{lemma_read_list, lemma_read_member, lemma_read_number, lemma_read_object};
use crate::document::{lemma_read_text, lemma_skip_space, member_text, read_document, read_items};
use crate::document::{read_members, read_value, Json};
use crate::double::round_half_even;
use crate::format::{fixed_text, format_fixed, ten_to};
use crate::json::{escape, escaped, hex_digit, is_control_char, json_string, json_text};
use crate::json::lemma_json_string_reads_back;
use crate::names::{is_forbidden, lemma_sanitized_is_fit, sanitize_filename, sanitized};
use crate::records::{stat_views, ExtensionStat, ScanSource, StatView};
use crate::text::{decimal, decimal_text, lemma_decimal_digits, lemma_decimal_reads_back, padded};

verus! {

/// The text of lines, each with a line break behind it.
pub open spec fn lines_text(lines: Seq<Seq<char>>) -> Seq<char>
    decreases lines.len(),
{
    if lines.len() == 0 {
        Seq::empty()
    } else {
        lines_text(lines.drop_last()) + lines.last().push('\n')
    }
}

/// The lines of the report before the extensions.
pub open spec fn head_lines(source: Seq<char>, total_files: nat, total_bytes: nat) -> Seq<
    Seq<char>,
> {
    seq![
        "{"@,
        "  \"application\": \"Extension Scanner\","@,
        "  \"source\": "@ + json_text(source) + ","@,
        "  \"total_files\": "@ + decimal_text(total_files) + ","@,
        "  \"total_bytes\": "@ + decimal_text(total_bytes) + ","@,
        "  \"extensions\": ["@,
    ]
}

/// The lines of an extension. There is a comma behind each extension but the last.
pub open spec fn stat_lines(stat: StatView, is_last: bool) -> Seq<Seq<char>> {
    seq![
        "    {"@,
        "      \"extension\": "@ + json_text(stat.extension) + ","@,
        "      \"count\": "@ + decimal_text(stat.count) + ","@,
        "      \"bytes\": "@ + decimal_text(stat.bytes) + ","@,
        "      \"percentage\": "@ + fixed_text(stat.percentage, 6),
        if is_last {
            "    }"@
        } else {
            "    },"@
        },
    ]
}

/// The lines of the first `n` extensions.
pub open spec fn all_stat_lines(stats: Seq<StatView>, n: nat) -> Seq<Seq<char>>
    decreases n,
{
    if n == 0 {
        Seq::empty()
    } else {
        all_stat_lines(stats, (n - 1) as nat) + stat_lines(stats[n - 1], n == stats.len())
    }
}

/// The lines of the report behind the extensions.
pub open spec fn tail_lines() -> Seq<Seq<char>> {
    seq!["  ]"@, "}"@]
}

/// The lines of the report.
pub open spec fn report_lines(
    source: Seq<char>,
    stats: Seq<StatView>,
    total_bytes: nat,
    total_files: nat,
) -> Seq<Seq<char>> {
    head_lines(source, total_files, total_bytes) + all_stat_lines(stats, stats.len())
        + tail_lines()
}

/// The report of a scan.
pub open spec fn report_text(
    source: Seq<char>,
    stats: Seq<StatView>,
    total_bytes: nat,
    total_files: nat,
) -> Seq<char> {
    lines_text(report_lines(source, stats, total_bytes, total_files))
}

/// The name of the file that holds the report on a source.
pub open spec fn json_name(source: Seq<char>) -> Seq<char> {
    "extensions_"@ + sanitized(source) + ".json"@
}

/// The report of a scan: the name of the file, and what it holds.
#[derive(Debug)]
pub struct JsonReport {
    pub file_name: String,
    pub text: String,
}

fn push_line(out: &mut String, front: &str, value: &str, back: &str, Ghost(lines): Ghost<
    Seq<Seq<char>>,
>)
    requires
        old(out)@ == lines_text(lines),
    ensures
        final(out)@ == lines_text(lines.push(front@ + value@ + back@)),
{
    out.append(front);
    out.append(value);
    out.append(back);
    out.push('\n');
    proof {
        let line = front@ + value@ + back@;
        assert(lines.push(line).drop_last() =~= lines);
        assert(out@ =~= lines_text(lines) + line.push('\n'));
    }
}

fn push_head(out: &mut String, source: &str, total_files: u64, total_bytes: u64)
    requires
        old(out)@.len() == 0,
    ensures
        final(out)@ == lines_text(head_lines(source@, total_files as nat, total_bytes as nat)),
{
    let source_text = json_string(source);
    let files_text = decimal(total_files);
    let bytes_text = decimal(total_bytes);
    let ghost all = head_lines(source@, total_files as nat, total_bytes as nat);
    assert(out@ =~= lines_text(all.take(0)));
    push_line(out, "{", "", "", Ghost(all.take(0)));
    proof {
        lemma_next_line(all, 0, "{"@, ""@, ""@);
    }
    push_line(
        out,
        "  \"application\": \"Extension Scanner\",",
        "",
        "",
        Ghost(all.take(1)),
    );
    proof {
        lemma_next_line(
            all,
            1,
            "  \"application\": \"Extension Scanner\","@,
            ""@,
            ""@,
        );
    }
    push_line(out, "  \"source\": ", source_text.as_str(), ",", Ghost(all.take(2)));
    assert(all.take(2).push(all[2]) =~= all.take(3));
    push_line(out, "  \"total_files\": ", files_text.as_str(), ",", Ghost(all.take(3)));
    assert(all.take(3).push(all[3]) =~= all.take(4));
    push_line(out, "  \"total_bytes\": ", bytes_text.as_str(), ",", Ghost(all.take(4)));
    assert(all.take(4).push(all[4]) =~= all.take(5));
    push_line(out, "  \"extensions\": [", "", "", Ghost(all.take(5)));
    proof {
        lemma_next_line(all, 5, "  \"extensions\": ["@, ""@, ""@);
        assert(all.take(6) =~= all);
    }
}

proof fn lemma_next_line(
    all: Seq<Seq<char>>,
    i: int,
    front: Seq<char>,
    value: Seq<char>,
    back: Seq<char>,
)
    requires
        0 <= i < all.len(),
        all[i] == front,
        value.len() == 0 || value == ""@,
        back.len() == 0 || back == ""@,
    ensures
        all.take(i).push(front + value + back) == all.take(i + 1),
{
    reveal_strlit("");
    assert(front + value + back =~= front);
    assert(all.take(i).push(front) =~= all.take(i + 1));
}

fn push_stat(out: &mut String, stat: &ExtensionStat, is_last: bool, Ghost(lines): Ghost<
    Seq<Seq<char>>,
>)
    requires
        old(out)@ == lines_text(lines),
    ensures
        final(out)@ == lines_text(lines + stat_lines(stat@, is_last)),
{
    let extension_text = json_string(stat.extension.as_str());
    let count_text = decimal(stat.count);
    let bytes_text = decimal(stat.bytes);
    let percentage_text = format_fixed(stat.percentage, 6);
    let ghost all = lines + stat_lines(stat@, is_last);
    let ghost n = lines.len() as int;
    assert(all.take(n) =~= lines);
    push_line(out, "    {", "", "", Ghost(all.take(n)));
    proof {
        lemma_next_line(all, n, "    {"@, ""@, ""@);
    }
    push_line(
        out,
        "      \"extension\": ",
        extension_text.as_str(),
        ",",
        Ghost(all.take(n + 1)),
    );
    assert(all.take(n + 1).push(all[n + 1]) =~= all.take(n + 2));
    push_line(out, "      \"count\": ", count_text.as_str(), ",", Ghost(all.take(n + 2)));
    assert(all.take(n + 2).push(all[n + 2]) =~= all.take(n + 3));
    push_line(out, "      \"bytes\": ", bytes_text.as_str(), ",", Ghost(all.take(n + 3)));
    assert(all.take(n + 3).push(all[n + 3]) =~= all.take(n + 4));
    push_line(
        out,
        "      \"percentage\": ",
        percentage_text.as_str(),
        "",
        Ghost(all.take(n + 4)),
    );
    proof {
        reveal_strlit("");
        assert("      \"percentage\": "@ + percentage_text@ + ""@ =~= all[n + 4]);
        assert(all.take(n + 4).push(all[n + 4]) =~= all.take(n + 5));
    }
    let end = if is_last {
        "    }"
    } else {
        "    },"
    };
    push_line(out, end, "", "", Ghost(all.take(n + 5)));
    proof {
        lemma_next_line(all, n + 5, end@, ""@, ""@);
        assert(all.take(n + 6) =~= all);
    }
}

/// The report of a scan.
pub fn create_json(
    source: &ScanSource,
    extensions: &Vec<ExtensionStat>,
    total_bytes: u64,
    total_files: u64,
) -> (r: JsonReport)
    ensures
        r.file_name@ == json_name(source.name_text()),
        r.text@ == report_text(
            source.path().display@,
            stat_views(extensions@),
            total_bytes as nat,
            total_files as nat,
        ),
{
    let source_name = source.name();
    let name = sanitize_filename(source_name.as_str());
    let mut file_name = "extensions_".to_owned();
    file_name.append(name.as_str());
    file_name.append(".json");
    let display = source.display_path();
    let mut text = String::new();
    push_head(&mut text, display.as_str(), total_files, total_bytes);
    let ghost stats = stat_views(extensions@);
    let ghost head = head_lines(display@, total_files as nat, total_bytes as nat);
    assert(head + all_stat_lines(stats, 0) =~= head);
    for i in 0..extensions.len()
        invariant
            stats == stat_views(extensions@),
            text@ == lines_text(head + all_stat_lines(stats, i as nat)),
    {
        push_stat(
            &mut text,
            &extensions[i],
            i + 1 == extensions.len(),
            Ghost(head + all_stat_lines(stats, i as nat)),
        );
        assert(stats[i as int] == extensions@[i as int]@);
        assert((head + all_stat_lines(stats, i as nat)) + stat_lines(
            stats[i as int],
            i + 1 == stats.len(),
        ) =~= head + all_stat_lines(stats, (i + 1) as nat));
    }
    let ghost all = report_lines(display@, stats, total_bytes as nat, total_files as nat);
    let ghost n = all.len() - 2;
    assert(head + all_stat_lines(stats, stats.len()) =~= all.take(n));
    push_line(&mut text, "  ]", "", "", Ghost(all.take(n)));
    proof {
        lemma_next_line(all, n, "  ]"@, ""@, ""@);
    }
    push_line(&mut text, "}", "", "", Ghost(all.take(n + 1)));
    proof {
        lemma_next_line(all, n + 1, "}"@, ""@, ""@);
        assert(all.take(n + 2) =~= all);
    }
    JsonReport { file_name, text }
}

/// The names of the files that a scan writes hold no character that a file name must not
/// hold, whatever the source is called.
pub proof fn lemma_output_names_are_fit(source: Seq<char>)
    ensures
        forall|i: int|
            0 <= i < png_name(source).len() ==> !is_forbidden(#[trigger] png_name(source)[i]),
        forall|i: int|
            0 <= i < json_name(source).len() ==> !is_forbidden(#[trigger] json_name(source)[i]),
{
    lemma_sanitized_is_fit(source);
    reveal_strlit("pie_");
    reveal_strlit(".png");
    reveal_strlit("extensions_");
    reveal_strlit(".json");
    let name = sanitized(source);
    assert forall|i: int| 0 <= i < png_name(source).len() implies !is_forbidden(
        #[trigger] png_name(source)[i],
    ) by {
        if 4 <= i < 4 + name.len() {
            assert(png_name(source)[i] == name[i - 4]);
        }
    }
    assert forall|i: int| 0 <= i < json_name(source).len() implies !is_forbidden(
        #[trigger] json_name(source)[i],
    ) by {
        if 11 <= i < 11 + name.len() {
            assert(json_name(source)[i] == name[i - 11]);
        }
    }
}

// ------------------------------------------------------------
// What a report tells
// ------------------------------------------------------------

spec fn is_one_line(s: Seq<char>) -> bool {
    forall|i: int| 0 <= i < s.len() ==> #[trigger] s[i] != '\n'
}

proof fn lemma_lines_unique(a: Seq<Seq<char>>, b: Seq<Seq<char>>)
    requires
        forall|i: int| 0 <= i < a.len() ==> is_one_line(#[trigger] a[i]),
        forall|i: int| 0 <= i < b.len() ==> is_one_line(#[trigger] b[i]),
        lines_text(a) == lines_text(b),
    ensures
        a == b,
    decreases a.len(),
{
    let t = lines_text(a);
    if a.len() == 0 || b.len() == 0 {
        if a.len() > 0 {
            assert(t.last() == '\n');
        }
        if b.len() > 0 {
            assert(t.last() == '\n');
        }
        assert(a =~= b);
    } else {
        let x = a.last();
        let y = b.last();
        assert(is_one_line(a[a.len() - 1]));
        assert(is_one_line(b[b.len() - 1]));
        let p = lines_text(a.drop_last());
        let q = lines_text(b.drop_last());
        if x.len() < y.len() {
            lemma_ends_with_break(a.drop_last());
            let at = t.len() - 2 - x.len();
            assert(t[at] == p[p.len() - 1]);
            assert(t[at] == y[at - q.len()]);
        }
        if y.len() < x.len() {
            lemma_ends_with_break(b.drop_last());
            let at = t.len() - 2 - y.len();
            assert(t[at] == q[q.len() - 1]);
            assert(t[at] == x[at - p.len()]);
        }
        assert(p =~= t.take(p.len() as int));
        assert(q =~= t.take(q.len() as int));
        assert(x =~= t.subrange(p.len() as int, t.len() - 1));
        assert(y =~= t.subrange(q.len() as int, t.len() - 1));
        lemma_lines_unique(a.drop_last(), b.drop_last());
        assert(a =~= a.drop_last().push(x));
        assert(b =~= b.drop_last().push(y));
    }
}

proof fn lemma_ends_with_break(lines: Seq<Seq<char>>)
    ensures
        lines_text(lines).len() > 0 ==> lines_text(lines).last() == '\n',
{
}

proof fn lemma_json_is_one_line(s: Seq<char>)
    ensures
        is_one_line(json_text(s)),
{
    lemma_escaped_is_one_line(s);
}

proof fn lemma_escaped_is_one_line(s: Seq<char>)
    ensures
        is_one_line(escaped(s)),
    decreases s.len(),
{
    if s.len() > 0 {
        lemma_escaped_is_one_line(s.drop_first());
        lemma_escape_is_one_line(s.first());
    }
}

proof fn lemma_escape_is_one_line(c: char)
    ensures
        is_one_line(escape(c)),
{
    if is_control_char(c) {
        assert(hex_digit(c as nat / 16) != '\n');
        assert(hex_digit(c as nat % 16) != '\n');
    }
}

proof fn lemma_decimal_is_one_line(n: nat)
    ensures
        is_one_line(decimal_text(n)),
{
    assert forall|i: int| 0 <= i < decimal_text(n).len() implies #[trigger] decimal_text(n)[i]
        != '\n' by {
        lemma_decimal_digits(n, i);
    }
}

proof fn lemma_padded_is_one_line(n: nat, width: nat)
    ensures
        is_one_line(padded(n, width)),
    decreases width,
{
    if width > 0 {
        lemma_padded_is_one_line(n / 10, (width - 1) as nat);
    }
}

proof fn lemma_fixed_is_one_line(value: (nat, nat), places: nat)
    ensures
        is_one_line(fixed_text(value, places)),
{
    let scaled = round_half_even(value.0 * ten_to(places), value.1);
    lemma_decimal_is_one_line(scaled / ten_to(places));
    lemma_padded_is_one_line(scaled % ten_to(places), places);
}

proof fn lemma_literals_are_one_line()
    ensures
        is_one_line("{"@),
        is_one_line("  \"application\": \"Extension Scanner\","@),
        is_one_line("  \"source\": "@),
        is_one_line("  \"total_files\": "@),
        is_one_line("  \"total_bytes\": "@),
        is_one_line("  \"extensions\": ["@),
        is_one_line("    {"@),
        is_one_line("      \"extension\": "@),
        is_one_line("      \"count\": "@),
        is_one_line("      \"bytes\": "@),
        is_one_line("      \"percentage\": "@),
        is_one_line("    }"@),
        is_one_line("    },"@),
        is_one_line("  ]"@),
        is_one_line("}"@),
        is_one_line(","@),
{
    reveal_strlit("{");
    reveal_strlit("  \"application\": \"Extension Scanner\",");
    reveal_strlit("  \"source\": ");
    reveal_strlit("  \"total_files\": ");
    reveal_strlit("  \"total_bytes\": ");
    reveal_strlit("  \"extensions\": [");
    reveal_strlit("    {");
    reveal_strlit("      \"extension\": ");
    reveal_strlit("      \"count\": ");
    reveal_strlit("      \"bytes\": ");
    reveal_strlit("      \"percentage\": ");
    reveal_strlit("    }");
    reveal_strlit("    },");
    reveal_strlit("  ]");
    reveal_strlit("}");
    reveal_strlit(",");
}

proof fn lemma_stat_lines_are_lines(stat: StatView, is_last: bool)
    ensures
        forall|i: int| 0 <= i < 6 ==> is_one_line(#[trigger] stat_lines(stat, is_last)[i]),
{
    lemma_literals_are_one_line();
    lemma_json_is_one_line(stat.extension);
    lemma_decimal_is_one_line(stat.count);
    lemma_decimal_is_one_line(stat.bytes);
    lemma_fixed_is_one_line(stat.percentage, 6);
}

proof fn lemma_stat_line_at(stats: Seq<StatView>, n: nat, i: int, k: int)
    requires
        0 <= i < n <= stats.len(),
        0 <= k < 6,
    ensures
        all_stat_lines(stats, n)[6 * i + k] == stat_lines(stats[i], i + 1 == stats.len())[k],
    decreases n,
{
    lemma_stat_lines_length(stats, (n - 1) as nat);
    if i < n - 1 {
        lemma_stat_line_at(stats, (n - 1) as nat, i, k);
    }
}

proof fn lemma_stat_lines_length(stats: Seq<StatView>, n: nat)
    ensures
        all_stat_lines(stats, n).len() == 6 * n,
    decreases n,
{
    if n > 0 {
        lemma_stat_lines_length(stats, (n - 1) as nat);
    }
}

proof fn lemma_all_stat_lines_are_lines(stats: Seq<StatView>, n: nat)
    ensures
        forall|i: int|
            0 <= i < all_stat_lines(stats, n).len() ==> is_one_line(
                #[trigger] all_stat_lines(stats, n)[i],
            ),
    decreases n,
{
    if n > 0 {
        let front = all_stat_lines(stats, (n - 1) as nat);
        let last = stat_lines(stats[n - 1], n == stats.len());
        lemma_all_stat_lines_are_lines(stats, (n - 1) as nat);
        lemma_stat_lines_are_lines(stats[n - 1], n == stats.len());
        assert forall|i: int| 0 <= i < all_stat_lines(stats, n).len() implies is_one_line(
            #[trigger] all_stat_lines(stats, n)[i],
        ) by {
            if i < front.len() {
                assert(all_stat_lines(stats, n)[i] == front[i]);
            } else {
                assert(all_stat_lines(stats, n)[i] == last[i - front.len()]);
            }
        }
    }
}

proof fn lemma_report_lines_are_lines(
    source: Seq<char>,
    stats: Seq<StatView>,
    total_bytes: nat,
    total_files: nat,
)
    ensures
        forall|i: int|
            0 <= i < report_lines(source, stats, total_bytes, total_files).len() ==> is_one_line(
                #[trigger] report_lines(source, stats, total_bytes, total_files)[i],
            ),
{
    let head = head_lines(source, total_files, total_bytes);
    let body = all_stat_lines(stats, stats.len());
    let lines = report_lines(source, stats, total_bytes, total_files);
    lemma_literals_are_one_line();
    lemma_json_is_one_line(source);
    lemma_decimal_is_one_line(total_files);
    lemma_decimal_is_one_line(total_bytes);
    lemma_all_stat_lines_are_lines(stats, stats.len());
    assert forall|i: int| 0 <= i < lines.len() implies is_one_line(#[trigger] lines[i]) by {
        if i < 6 {
            assert(lines[i] == head[i]);
            assert(is_one_line(head[i]));
        } else if i < 6 + body.len() {
            assert(lines[i] == body[i - 6]);
        } else {
            assert(lines[i] == tail_lines()[i - 6 - body.len()]);
        }
    }
}

proof fn lemma_same_inside(front: Seq<char>, a: Seq<char>, b: Seq<char>, back: Seq<char>)
    requires
        front + a + back == front + b + back,
    ensures
        a == b,
{
    let s = front + a + back;
    assert(a =~= s.subrange(front.len() as int, s.len() - back.len()));
    assert(b =~= s.subrange(front.len() as int, s.len() - back.len()));
}

proof fn lemma_same_text(a: Seq<char>, b: Seq<char>)
    requires
        json_text(a) == json_text(b),
    ensures
        a == b,
{
    lemma_json_string_reads_back(a);
    lemma_json_string_reads_back(b);
}

proof fn lemma_same_number(a: nat, b: nat)
    requires
        decimal_text(a) == decimal_text(b),
    ensures
        a == b,
{
    lemma_decimal_reads_back(a);
    lemma_decimal_reads_back(b);
}

/// A report tells all that it is about: two reports with the same text are on the same
/// source, have the same totals, and list the same extensions with the same counts, bytes
/// and percentages, as far as those are written out.
pub proof fn lemma_report_tells_all(
    source: Seq<char>,
    stats: Seq<StatView>,
    total_bytes: nat,
    total_files: nat,
    other_source: Seq<char>,
    other_stats: Seq<StatView>,
    other_bytes: nat,
    other_files: nat,
)
    requires
        report_text(source, stats, total_bytes, total_files) == report_text(
            other_source,
            other_stats,
            other_bytes,
            other_files,
        ),
    ensures
        source == other_source,
        total_files == other_files,
        total_bytes == other_bytes,
        stats.len() == other_stats.len(),
        forall|i: int|
            0 <= i < stats.len() ==> {
                &&& (#[trigger] stats[i]).extension == other_stats[i].extension
                &&& stats[i].count == other_stats[i].count
                &&& stats[i].bytes == other_stats[i].bytes
                &&& fixed_text(stats[i].percentage, 6) == fixed_text(other_stats[i].percentage, 6)
            },
{
    let a = report_lines(source, stats, total_bytes, total_files);
    let b = report_lines(other_source, other_stats, other_bytes, other_files);
    lemma_report_lines_are_lines(source, stats, total_bytes, total_files);
    lemma_report_lines_are_lines(other_source, other_stats, other_bytes, other_files);
    lemma_lines_unique(a, b);
    lemma_stat_lines_length(stats, stats.len());
    lemma_stat_lines_length(other_stats, other_stats.len());
    let h = head_lines(source, total_files, total_bytes);
    let g = head_lines(other_source, other_files, other_bytes);
    assert(a[2] == h[2] && b[2] == g[2]);
    assert(a[3] == h[3] && b[3] == g[3]);
    assert(a[4] == h[4] && b[4] == g[4]);
    lemma_same_inside("  \"source\": "@, json_text(source), json_text(other_source), ","@);
    lemma_same_text(source, other_source);
    lemma_same_inside(
        "  \"total_files\": "@,
        decimal_text(total_files),
        decimal_text(other_files),
        ","@,
    );
    lemma_same_number(total_files, other_files);
    lemma_same_inside(
        "  \"total_bytes\": "@,
        decimal_text(total_bytes),
        decimal_text(other_bytes),
        ","@,
    );
    lemma_same_number(total_bytes, other_bytes);
    assert(a.subrange(6, a.len() - 2) =~= all_stat_lines(stats, stats.len()));
    assert(b.subrange(6, b.len() - 2) =~= all_stat_lines(other_stats, other_stats.len()));
    assert forall|i: int| 0 <= i < stats.len() implies {
        &&& (#[trigger] stats[i]).extension == other_stats[i].extension
        &&& stats[i].count == other_stats[i].count
        &&& stats[i].bytes == other_stats[i].bytes
        &&& fixed_text(stats[i].percentage, 6) == fixed_text(other_stats[i].percentage, 6)
    } by {
        lemma_same_stat(stats, other_stats, a, b, i);
    }
}

proof fn lemma_same_stat(
    stats: Seq<StatView>,
    other: Seq<StatView>,
    a: Seq<Seq<char>>,
    b: Seq<Seq<char>>,
    i: int,
)
    requires
        0 <= i < stats.len() == other.len(),
        a == b,
        a.len() == 8 + 6 * stats.len(),
        a.subrange(6, a.len() - 2) == all_stat_lines(stats, stats.len()),
        b.subrange(6, b.len() - 2) == all_stat_lines(other, other.len()),
    ensures
        stats[i].extension == other[i].extension,
        stats[i].count == other[i].count,
        stats[i].bytes == other[i].bytes,
        fixed_text(stats[i].percentage, 6) == fixed_text(other[i].percentage, 6),
{
    let n = stats.len();
    let x = stat_lines(stats[i], i + 1 == n);
    let y = stat_lines(other[i], i + 1 == n);
    lemma_stat_line_at(stats, n, i, 1);
    lemma_stat_line_at(other, n, i, 1);
    lemma_stat_line_at(stats, n, i, 2);
    lemma_stat_line_at(other, n, i, 2);
    lemma_stat_line_at(stats, n, i, 3);
    lemma_stat_line_at(other, n, i, 3);
    lemma_stat_line_at(stats, n, i, 4);
    lemma_stat_line_at(other, n, i, 4);
    assert(x[1] == y[1] && x[2] == y[2] && x[3] == y[3] && x[4] == y[4]);
    let e = stats[i];
    let f = other[i];
    lemma_same_inside(
        "      \"extension\": "@,
        json_text(e.extension),
        json_text(f.extension),
        ","@,
    );
    lemma_same_text(e.extension, f.extension);
    lemma_same_inside("      \"count\": "@, decimal_text(e.count), decimal_text(f.count), ","@);
    lemma_same_number(e.count, f.count);
    lemma_same_inside("      \"bytes\": "@, decimal_text(e.bytes), decimal_text(f.bytes), ","@);
    lemma_same_number(e.bytes, f.bytes);
    let front = "      \"percentage\": "@;
    let p = fixed_text(e.percentage, 6);
    let q = fixed_text(f.percentage, 6);
    assert(front + p + Seq::<char>::empty() =~= front + p);
    assert(front + q + Seq::<char>::empty() =~= front + q);
    lemma_same_inside(front, p, q, Seq::empty());
}

// ------------------------------------------------------------
// The report as a document
// ------------------------------------------------------------

/// The value of an extension in the report.
pub open spec fn stat_value(stat: StatView) -> Json {
    Json::Object(
        seq![
            ("extension"@, Json::Text(stat.extension)),
            ("count"@, Json::Number(decimal_text(stat.count))),
            ("bytes"@, Json::Number(decimal_text(stat.bytes))),
            ("percentage"@, Json::Number(fixed_text(stat.percentage, 6))),
        ],
    )
}

/// The value of the report.
pub open spec fn report_value(
    source: Seq<char>,
    stats: Seq<StatView>,
    total_bytes: nat,
    total_files: nat,
) -> Json {
    Json::Object(
        seq![
            ("application"@, Json::Text("Extension Scanner"@)),
            ("source"@, Json::Text(source)),
            ("total_files"@, Json::Number(decimal_text(total_files))),
            ("total_bytes"@, Json::Number(decimal_text(total_bytes))),
            ("extensions"@, Json::List(stats.map_values(|s: StatView| stat_value(s)))),
        ],
    )
}

spec fn spaces(n: nat) -> Seq<char> {
    Seq::new(n, |i: int| ' ')
}

spec fn line_break(n: nat) -> Seq<char> {
    seq!['\n'] + spaces(n)
}

#[verifier::opaque]
spec fn text_from(lines: Seq<Seq<char>>, at: int) -> Seq<char> {
    lines_text(lines.skip(at))
}

proof fn lemma_first_line(lines: Seq<Seq<char>>)
    requires
        lines.len() > 0,
    ensures
        lines_text(lines) == lines[0].push('\n') + lines_text(lines.skip(1)),
    decreases lines.len(),
{
    if lines.len() == 1 {
        reveal_with_fuel(lines_text, 2);
        assert(lines.drop_last() =~= Seq::empty());
        assert(lines.skip(1) =~= Seq::empty());
        assert(lines_text(lines) =~= lines[0].push('\n'));
        assert(lines_text(lines) =~= lines[0].push('\n') + lines_text(lines.skip(1)));
    } else {
        lemma_first_line(lines.drop_last());
        assert(lines.drop_last().skip(1) =~= lines.skip(1).drop_last());
        assert(lines_text(lines) =~= lines[0].push('\n') + lines_text(lines.skip(1)));
    }
}

proof fn lemma_line_at(lines: Seq<Seq<char>>, at: int)
    requires
        0 <= at < lines.len(),
    ensures
        text_from(lines, at) == lines[at] + seq!['\n'] + text_from(lines, at + 1),
{
    reveal(text_from);
    lemma_first_line(lines.skip(at));
    assert(lines.skip(at).skip(1) =~= lines.skip(at + 1));
    assert(text_from(lines, at) =~= lines[at] + seq!['\n'] + text_from(lines, at + 1));
}

/// A line with a member and a comma, before a line with the next member.
proof fn lemma_member_line(
    indent: nat,
    front: Seq<char>,
    key: Seq<char>,
    value: Seq<char>,
    read: Json,
    next: Seq<char>,
    members: Seq<(Seq<char>, Json)>,
    rest: Seq<char>,
) -> (start: Seq<char>)
    requires
        front == spaces(indent) + json_text(key) + seq![':', ' '],
        value.len() > 0,
        !is_space(value[0]),
        read_value(value + (seq![','] + line_break(indent) + next)) == Some(
            (read, seq![','] + line_break(indent) + next),
        ),
        next.len() > 0,
        next[0] == '"',
        read_members(next) == Some((members, rest)),
    ensures
        front + value + ","@ + seq!['\n'] + (spaces(indent) + next) == spaces(indent) + start,
        start.len() > 0,
        start[0] == '"',
        read_members(start) == Some((seq![(key, read)] + members, rest)),
{
    reveal_strlit(",");
    let behind = seq![','] + line_break(indent) + next;
    let start = member_text(key, value + behind);
    assert(front + value + ","@ + seq!['\n'] + (spaces(indent) + next) =~= spaces(indent) + start);
    lemma_read_member(key, value + behind, read, line_break(indent), next, members, rest);
    start
}

proof fn lemma_fixed_is_number(value: (nat, nat), places: nat)
    requires
        places > 0,
    ensures
        is_number(fixed_text(value, places)),
{
    let scaled = round_half_even(value.0 * ten_to(places), value.1);
    let whole = decimal_text(scaled / ten_to(places));
    let part = padded(scaled % ten_to(places), places);
    let s = fixed_text(value, places);
    lemma_decimal_is_whole(scaled / ten_to(places));
    lemma_padded_digits(scaled % ten_to(places), places);
    assert(s.take(whole.len() as int) =~= whole);
    assert(s.skip(whole.len() as int + 1) =~= part);
    assert(is_fraction(s, whole.len() as int));
}

proof fn lemma_keys()
    ensures
        "      \"extension\": "@ == spaces(6) + json_text("extension"@) + seq![':', ' '],
        "      \"count\": "@ == spaces(6) + json_text("count"@) + seq![':', ' '],
        "      \"bytes\": "@ == spaces(6) + json_text("bytes"@) + seq![':', ' '],
        "      \"percentage\": "@ == spaces(6) + json_text("percentage"@) + seq![':', ' '],
        "  \"source\": "@ == spaces(2) + json_text("source"@) + seq![':', ' '],
        "  \"total_files\": "@ == spaces(2) + json_text("total_files"@) + seq![':', ' '],
        "  \"total_bytes\": "@ == spaces(2) + json_text("total_bytes"@) + seq![':', ' '],
{
    reveal_strlit("      \"extension\": ");
    reveal_strlit("extension");
    reveal_strlit("      \"count\": ");
    reveal_strlit("count");
    reveal_strlit("      \"bytes\": ");
    reveal_strlit("bytes");
    reveal_strlit("      \"percentage\": ");
    reveal_strlit("percentage");
    reveal_strlit("  \"source\": ");
    reveal_strlit("source");
    reveal_strlit("  \"total_files\": ");
    reveal_strlit("total_files");
    reveal_strlit("  \"total_bytes\": ");
    reveal_strlit("total_bytes");
    lemma_plain_text("extension"@);
    lemma_plain_text("count"@);
    lemma_plain_text("bytes"@);
    lemma_plain_text("percentage"@);
    lemma_plain_text("source"@);
    lemma_plain_text("total_files"@);
    lemma_plain_text("total_bytes"@);
    assert("      \"extension\": "@ =~= spaces(6) + json_text("extension"@) + seq![':', ' ']);
    assert("      \"count\": "@ =~= spaces(6) + json_text("count"@) + seq![':', ' ']);
    assert("      \"bytes\": "@ =~= spaces(6) + json_text("bytes"@) + seq![':', ' ']);
    assert("      \"percentage\": "@ =~= spaces(6) + json_text("percentage"@) + seq![':', ' ']);
    assert("  \"source\": "@ =~= spaces(2) + json_text("source"@) + seq![':', ' ']);
    assert("  \"total_files\": "@ =~= spaces(2) + json_text("total_files"@) + seq![':', ' ']);
    assert("  \"total_bytes\": "@ =~= spaces(2) + json_text("total_bytes"@) + seq![':', ' ']);
}

/// What follows the object of an extension.
spec fn behind_stat(is_last: bool, after: Seq<char>) -> Seq<char> {
    if is_last {
        seq!['\n'] + after
    } else {
        seq![',', '\n'] + after
    }
}

/// The lines of an extension in a row, before what follows them.
spec fn stat_text(stat: StatView, is_last: bool, after: Seq<char>) -> Seq<char> {
    let lines = stat_lines(stat, is_last);
    let fifth = lines[5] + seq!['\n'] + after;
    let fourth = lines[4] + seq!['\n'] + fifth;
    let third = lines[3] + seq!['\n'] + fourth;
    let second = lines[2] + seq!['\n'] + third;
    let first = lines[1] + seq!['\n'] + second;
    lines[0] + seq!['\n'] + first
}

/// Whether the lines of an extension stand in `lines` from position `at` on.
spec fn holds_stat(lines: Seq<Seq<char>>, at: int, stat: StatView, is_last: bool) -> bool {
    forall|k: int| 0 <= k < 6 ==> lines[at + k] == #[trigger] stat_lines(stat, is_last)[k]
}

/// Whether the lines of the extension at position `j` stand at their place in a report.
spec fn lists_stat(lines: Seq<Seq<char>>, stats: Seq<StatView>, j: int) -> bool {
    holds_stat(lines, 6 + 6 * j, stats[j], j + 1 == stats.len())
}

proof fn lemma_stat_text(lines: Seq<Seq<char>>, at: int, stat: StatView, is_last: bool)
    requires
        0 <= at,
        at + 6 <= lines.len(),
        holds_stat(lines, at, stat, is_last),
    ensures
        text_from(lines, at) == stat_text(stat, is_last, text_from(lines, at + 6)),
{
    let own = stat_lines(stat, is_last);
    assert(lines[at + 0] == own[0] && lines[at + 1] == own[1] && lines[at + 2] == own[2] && lines[at
        + 3] == own[3] && lines[at + 4] == own[4] && lines[at + 5] == own[5]);
    lemma_line_at(lines, at);
    lemma_line_at(lines, at + 1);
    lemma_line_at(lines, at + 2);
    lemma_line_at(lines, at + 3);
    lemma_line_at(lines, at + 4);
    lemma_line_at(lines, at + 5);
}

proof fn lemma_last_stat_line(stat: StatView, is_last: bool, after: Seq<char>) -> (start: Seq<
    char,
>)
    ensures
        stat_lines(stat, is_last)[4] + seq!['\n'] + (stat_lines(stat, is_last)[5] + seq!['\n']
            + after) == spaces(6) + start,
        start.len() > 0,
        start[0] == '"',
        read_members(start) == Some(
            (
                seq![("percentage"@, Json::Number(fixed_text(stat.percentage, 6)))],
                behind_stat(is_last, after),
            ),
        ),
{
    let own = stat_lines(stat, is_last);
    let rest = behind_stat(is_last, after);
    let percentage = fixed_text(stat.percentage, 6);
    reveal_strlit("    }");
    reveal_strlit("    },");
    let end = own[5] + seq!['\n'] + after;
    assert(end =~= spaces(4) + (seq!['}'] + rest));
    let behind = seq!['\n'] + end;
    assert(behind =~= line_break(4) + (seq!['}'] + rest));
    lemma_skip_space(line_break(4), seq!['}'] + rest);
    lemma_fixed_is_number(stat.percentage, 6);
    lemma_read_number(percentage, behind);
    let start = member_text("percentage"@, percentage + behind);
    lemma_read_last_member(
        "percentage"@,
        percentage + behind,
        Json::Number(percentage),
        behind,
        rest,
    );
    lemma_keys();
    assert(own[4] + seq!['\n'] + end =~= spaces(6) + start);
    start
}

proof fn lemma_read_stat(stat: StatView, is_last: bool, after: Seq<char>) -> (start: Seq<char>)
    ensures
        stat_text(stat, is_last, after) == spaces(4) + start,
        start.len() > behind_stat(is_last, after).len(),
        start[0] == '{',
        read_value(start) == Some((stat_value(stat), behind_stat(is_last, after))),
{
    let own = stat_lines(stat, is_last);
    let rest = behind_stat(is_last, after);
    let count = decimal_text(stat.count);
    let bytes = decimal_text(stat.bytes);
    let percentage = fixed_text(stat.percentage, 6);
    let fourth = lemma_last_stat_line(stat, is_last, after);
    lemma_keys();
    lemma_decimal_is_whole(stat.count);
    lemma_decimal_is_whole(stat.bytes);
    let one = seq![("percentage"@, Json::Number(percentage))];
    lemma_read_number(bytes, seq![','] + line_break(6) + fourth);
    let third = lemma_member_line(
        6,
        "      \"bytes\": "@,
        "bytes"@,
        bytes,
        Json::Number(bytes),
        fourth,
        one,
        rest,
    );
    lemma_read_number(count, seq![','] + line_break(6) + third);
    let two = seq![("bytes"@, Json::Number(bytes))] + one;
    let second = lemma_member_line(
        6,
        "      \"count\": "@,
        "count"@,
        count,
        Json::Number(count),
        third,
        two,
        rest,
    );
    lemma_read_text(stat.extension, seq![','] + line_break(6) + second);
    let three = seq![("count"@, Json::Number(count))] + two;
    let first = lemma_member_line(
        6,
        "      \"extension\": "@,
        "extension"@,
        json_text(stat.extension),
        Json::Text(stat.extension),
        second,
        three,
        rest,
    );
    let all = seq![("extension"@, Json::Text(stat.extension))] + three;
    lemma_read_object(line_break(6), first, all, rest);
    let start = seq!['{'] + line_break(6) + first;
    reveal_strlit("    {");
    assert(stat_text(stat, is_last, after) =~= spaces(4) + start);
    assert(all =~= seq![
        ("extension"@, Json::Text(stat.extension)),
        ("count"@, Json::Number(count)),
        ("bytes"@, Json::Number(bytes)),
        ("percentage"@, Json::Number(percentage)),
    ]);
    assert(start.len() > rest.len());
    start
}

/// What follows the list of extensions.
spec fn behind_list() -> Seq<char> {
    seq!['\n', '}', '\n']
}

proof fn lemma_tail_text(lines: Seq<Seq<char>>, at: int)
    requires
        0 <= at,
        at + 2 == lines.len(),
        lines[at] == "  ]"@,
        lines[at + 1] == "}"@,
    ensures
        text_from(lines, at) == spaces(2) + (seq![']'] + behind_list()),
{
    reveal_strlit("  ]");
    reveal_strlit("}");
    lemma_line_at(lines, at);
    lemma_line_at(lines, at + 1);
    assert(text_from(lines, at + 2).len() == 0) by {
        reveal(text_from);
        assert(lines.skip(at + 2) =~= Seq::empty());
    }
    assert(text_from(lines, at) =~= spaces(2) + (seq![']'] + behind_list()));
}

proof fn lemma_read_stats(lines: Seq<Seq<char>>, stats: Seq<StatView>, i: int) -> (start: Seq<char>)
    requires
        0 <= i < stats.len(),
        lines.len() == 8 + 6 * stats.len(),
        forall|j: int| 0 <= j < stats.len() ==> #[trigger] lists_stat(lines, stats, j),
        text_from(lines, 6 + 6 * stats.len() as int) == spaces(2) + (seq![']'] + behind_list()),
    ensures
        text_from(lines, 6 + 6 * i) == spaces(4) + start,
        start.len() > 0,
        start[0] == '{',
        read_items(start) == Some(
            (stats.skip(i).map_values(|s: StatView| stat_value(s)), behind_list()),
        ),
    decreases stats.len() - i,
{
    let at = 6 + 6 * i;
    let is_last = i + 1 == stats.len();
    let after = text_from(lines, at + 6);
    let values = stats.skip(i).map_values(|s: StatView| stat_value(s));
    assert(lists_stat(lines, stats, i));
    lemma_stat_text(lines, at, stats[i], is_last);
    let start = lemma_read_stat(stats[i], is_last, after);
    let behind = behind_stat(is_last, after);
    if is_last {
        assert(behind =~= line_break(2) + (seq![']'] + behind_list()));
        lemma_skip_space(line_break(2), seq![']'] + behind_list());
        lemma_read_last_item(start, stat_value(stats[i]), behind, behind_list());
        assert(values =~= seq![stat_value(stats[i])]);
    } else {
        let next = lemma_read_stats(lines, stats, i + 1);
        let others = stats.skip(i + 1).map_values(|s: StatView| stat_value(s));
        assert(6 + 6 * (i + 1) == at + 6);
        assert(behind =~= seq![','] + line_break(4) + next);
        lemma_read_item(
            start,
            stat_value(stats[i]),
            line_break(4),
            next,
            others,
            behind_list(),
        );
        assert(values =~= seq![stat_value(stats[i])] + others);
    }
    start
}

/// The member that lists the extensions.
proof fn lemma_read_list_line(lines: Seq<Seq<char>>, stats: Seq<StatView>) -> (start: Seq<char>)
    requires
        lines.len() == 8 + 6 * stats.len(),
        lines[5] == "  \"extensions\": ["@,
        forall|j: int| 0 <= j < stats.len() ==> #[trigger] lists_stat(lines, stats, j),
        text_from(lines, 6 + 6 * stats.len() as int) == spaces(2) + (seq![']'] + behind_list()),
    ensures
        text_from(lines, 5) == spaces(2) + start,
        start.len() > 0,
        start[0] == '"',
        read_members(start) == Some(
            (
                seq![
                    ("extensions"@, Json::List(stats.map_values(|s: StatView| stat_value(s)))),
                ],
                seq!['\n'],
            ),
        ),
{
    let values = stats.map_values(|s: StatView| stat_value(s));
    let list = seq!['[', '\n'] + text_from(lines, 6);
    lemma_line_at(lines, 5);
    if stats.len() == 0 {
        lemma_read_empty_list(line_break(2), behind_list());
        assert(list =~= seq!['['] + line_break(2) + (seq![']'] + behind_list()));
        assert(values =~= Seq::empty());
    } else {
        let inside = lemma_read_stats(lines, stats, 0);
        assert(stats.skip(0) =~= stats);
        lemma_read_list(line_break(4), inside, values, behind_list());
        assert(list =~= seq!['['] + line_break(4) + inside);
    }
    assert(behind_list() =~= seq!['\n'] + (seq!['}'] + seq!['\n']));
    lemma_skip_space(seq!['\n'], seq!['}'] + seq!['\n']);
    let start = member_text("extensions"@, list);
    lemma_read_last_member(
        "extensions"@,
        list,
        Json::List(values),
        behind_list(),
        seq!['\n'],
    );
    reveal_strlit("  \"extensions\": [");
    reveal_strlit("extensions");
    lemma_plain_text("extensions"@);
    assert(text_from(lines, 5) =~= spaces(2) + start);
    start
}

proof fn lemma_application_line(next: Seq<char>)
    ensures
        "  \"application\": \"Extension Scanner\","@ + seq!['\n'] + (spaces(2) + next) == (spaces(2)
            + json_text("application"@) + seq![':', ' ']) + json_text("Extension Scanner"@) + ","@
            + seq!['\n'] + (spaces(2) + next),
{
    reveal_strlit("  \"application\": \"Extension Scanner\",");
    reveal_strlit("application");
    reveal_strlit("Extension Scanner");
    reveal_strlit(",");
    lemma_plain_text("application"@);
    lemma_plain_text("Extension Scanner"@);
    assert("  \"application\": \"Extension Scanner\","@ =~= (spaces(2) + json_text(
        "application"@,
    ) + seq![':', ' ']) + json_text("Extension Scanner"@) + ","@);
}

/// A report is a JSON document: a reader gets the source, the totals and the extensions
/// with their counts, bytes and percentages out of it, and nothing else.
pub proof fn lemma_report_reads_back(
    source: Seq<char>,
    stats: Seq<StatView>,
    total_bytes: nat,
    total_files: nat,
)
    ensures
        read_document(report_text(source, stats, total_bytes, total_files)) == Some(
            report_value(source, stats, total_bytes, total_files),
        ),
{
    let lines = report_lines(source, stats, total_bytes, total_files);
    let text = report_text(source, stats, total_bytes, total_files);
    let head = head_lines(source, total_files, total_bytes);
    let n = stats.len();
    lemma_stat_lines_length(stats, n);
    assert forall|j: int| 0 <= j < n implies #[trigger] lists_stat(lines, stats, j) by {
        let own = stat_lines(stats[j], j + 1 == n);
        assert forall|k: int| 0 <= k < 6 implies lines[6 + 6 * j + k] == #[trigger] own[k] by {
            lemma_stat_line_at(stats, n, j, k);
        }
    }
    lemma_tail_text(lines, 6 + 6 * n as int);
    assert(lines[0] == head[0] && lines[1] == head[1] && lines[2] == head[2] && lines[3] == head[3]
        && lines[4] == head[4] && lines[5] == head[5]);
    let fifth = lemma_read_list_line(lines, stats);
    let values = stats.map_values(|s: StatView| stat_value(s));
    assert(lines.take(6) =~= head);
    lemma_read_head(source, total_bytes, total_files, lines, Json::List(values), fifth);
    assert(text == text_from(lines, 0)) by {
        reveal(text_from);
        assert(lines.skip(0) =~= lines);
    }
}

proof fn lemma_read_head(
    source: Seq<char>,
    total_bytes: nat,
    total_files: nat,
    lines: Seq<Seq<char>>,
    list: Json,
    fifth: Seq<char>,
)
    requires
        lines.len() > 6,
        lines.take(6) == head_lines(source, total_files, total_bytes),
        text_from(lines, 5) == spaces(2) + fifth,
        fifth.len() > 0,
        fifth[0] == '"',
        read_members(fifth) == Some((seq![("extensions"@, list)], seq!['\n'])),
    ensures
        read_document(text_from(lines, 0)) == Some(
            Json::Object(
                seq![
                    ("application"@, Json::Text("Extension Scanner"@)),
                    ("source"@, Json::Text(source)),
                    ("total_files"@, Json::Number(decimal_text(total_files))),
                    ("total_bytes"@, Json::Number(decimal_text(total_bytes))),
                    ("extensions"@, list),
                ],
            ),
        ),
{
    let head = head_lines(source, total_files, total_bytes);
    let rest = seq!['\n'];
    let files = decimal_text(total_files);
    let bytes = decimal_text(total_bytes);
    let one = seq![("extensions"@, list)];
    assert(lines[0] == head[0] && lines[1] == head[1] && lines[2] == head[2] && lines[3] == head[3]
        && lines[4] == head[4]);
    lemma_line_at(lines, 0);
    lemma_line_at(lines, 1);
    lemma_line_at(lines, 2);
    lemma_line_at(lines, 3);
    lemma_line_at(lines, 4);
    lemma_keys();
    lemma_decimal_is_whole(total_files);
    lemma_decimal_is_whole(total_bytes);
    lemma_read_number(bytes, seq![','] + line_break(2) + fifth);
    let fourth = lemma_member_line(
        2,
        "  \"total_bytes\": "@,
        "total_bytes"@,
        bytes,
        Json::Number(bytes),
        fifth,
        one,
        rest,
    );
    let two = seq![("total_bytes"@, Json::Number(bytes))] + one;
    lemma_read_number(files, seq![','] + line_break(2) + fourth);
    let third = lemma_member_line(
        2,
        "  \"total_files\": "@,
        "total_files"@,
        files,
        Json::Number(files),
        fourth,
        two,
        rest,
    );
    let three = seq![("total_files"@, Json::Number(files))] + two;
    lemma_read_text(source, seq![','] + line_break(2) + third);
    let second = lemma_member_line(
        2,
        "  \"source\": "@,
        "source"@,
        json_text(source),
        Json::Text(source),
        third,
        three,
        rest,
    );
    let four = seq![("source"@, Json::Text(source))] + three;
    lemma_read_text("Extension Scanner"@, seq![','] + line_break(2) + second);
    let first = lemma_member_line(
        2,
        spaces(2) + json_text("application"@) + seq![':', ' '],
        "application"@,
        json_text("Extension Scanner"@),
        Json::Text("Extension Scanner"@),
        second,
        four,
        rest,
    );
    lemma_application_line(second);
    let all = seq![("application"@, Json::Text("Extension Scanner"@))] + four;
    lemma_read_object(line_break(2), first, all, rest);
    reveal_strlit("{");
    let start = seq!['{'] + line_break(2) + first;
    assert(text_from(lines, 0) =~= start);
    lemma_skip_space(Seq::empty(), start);
    assert(Seq::<char>::empty() + start =~= start);
    lemma_skip_space(rest, Seq::empty());
    assert(rest + Seq::<char>::empty() =~= rest);
    assert(all =~= seq![
        ("application"@, Json::Text("Extension Scanner"@)),
        ("source"@, Json::Text(source)),
        ("total_files"@, Json::Number(files)),
        ("total_bytes"@, Json::Number(bytes)),
        ("extensions"@, list),
    ]);
}

} // verus!
