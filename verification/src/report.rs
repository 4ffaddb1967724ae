//! Text shown to the user: help, configuration banner, the layout as CSV
//! lines, and the closing report of an imaging run.
use vstd::prelude::*;
use crate::cli::{location_text, Config, Location};
use crate::layout::{layout_end, seg_end, truncation_spec, Layout, Segment, Status};
use crate::text::{byte_count_text, decimal, format_byte_count, hex, push_char, push_decimal, push_hex, push_hex_padded, zero_padded};

verus! {

/// The program's version.
pub const VERSION: &'static str = "0.1.0";

/// A rule of 50 '^' opening the banner.
pub const BANNER_TOP: &'static str = "^^^^^^^^^^^^^^^^^^^^^^^^^^^^^^^^^^^^^^^^^^^^^^^^^^";

/// A rule of 50 '*' closing the banner and the layout.
pub const RULE: &'static str = "**************************************************";

/// Header lines of the CSV layout.
pub const CSV_COLUMNS: &'static str = "# 0xSTART, 0xEND, 0xLEN, STATUS, COMMENT";

/// The status letter of the CSV layout: G, B or U.
pub open spec fn status_char(s: Status) -> char {
    match s {
        Status::Good => 'G',
        Status::Bad => 'B',
        Status::Ugly => 'U',
    }
}

/// Hexadecimal with at least eight digits.
pub open spec fn hex8(n: nat) -> Seq<char> {
    zero_padded(hex(n), 8)
}

/// The comment column of a segment's CSV line.
pub open spec fn csv_comment(s: Segment) -> Seq<char> {
    match s.status {
        Status::Good => "'readable data ["@ + decimal(s.essence as nat) + "] ("@ + byte_count_text(s.length) + ")'"@,
        Status::Bad => "'error reading ["@ + decimal(s.essence as nat) + "] ("@ + byte_count_text(s.length) + ")'"@,
        Status::Ugly => "'pattern: 0x"@ + hex8(s.essence as nat) + " ("@ + byte_count_text(s.length) + ")'"@,
    }
}

/// The CSV line of a segment: start, end and length in hexadecimal, the
/// essence in eight hexadecimal digits, the status letter and a comment.
pub open spec fn csv_line(s: Segment) -> Seq<char> {
    "0x"@ + hex(s.offset as nat) + ",0x"@ + hex(seg_end(s) as nat) + ",0x"@ + hex(s.length as nat) + ",0x"@
        + hex8(s.essence as nat) + seq![',', status_char(s.status), ','] + csv_comment(s)
}

/// The first line of the CSV layout, naming the stride.
pub open spec fn csv_title(stride: u64) -> Seq<char> {
    "# rusdd layout (at "@ + byte_count_text(stride) + " stide)"@
}

/// The CSV line of one segment (see `csv_line`).
pub fn segment_csv(s: &Segment) -> (line: String)
    requires
        seg_end(*s) <= u64::MAX,
    ensures
        line@ == csv_line(*s),
{
    let mut line = String::from_str("0x");
    push_hex(&mut line, s.offset);
    line.append(",0x");
    push_hex(&mut line, s.offset + s.length);
    line.append(",0x");
    push_hex(&mut line, s.length);
    line.append(",0x");
    push_hex_padded(&mut line, s.essence as u64, 8);
    push_char(&mut line, ',');
    let c = match s.status {
        Status::Good => 'G',
        Status::Bad => 'B',
        Status::Ugly => 'U',
    };
    push_char(&mut line, c);
    push_char(&mut line, ',');
    let size = format_byte_count(s.length);
    match s.status {
        Status::Good => {
            line.append("'readable data [");
            push_decimal(&mut line, s.essence as u64);
            line.append("] (");
        },
        Status::Bad => {
            line.append("'error reading [");
            push_decimal(&mut line, s.essence as u64);
            line.append("] (");
        },
        Status::Ugly => {
            line.append("'pattern: 0x");
            push_hex_padded(&mut line, s.essence as u64, 8);
            line.append(" (");
        },
    }
    line.append(size.as_str());
    line.append(")'");
    proof {
        assert(line@ =~= csv_line(*s));
    }
    line
}

/// The layout as CSV lines: a title naming the stride, the column names,
/// one line per segment (see `csv_line`) and a closing rule.
pub fn layout_csv(layout: &Layout) -> (lines: Vec<String>)
    requires
        forall|k: int| 0 <= k < layout.segments@.len() ==> seg_end(#[trigger] layout.segments@[k]) <= u64::MAX,
    ensures
        lines@.len() == layout.segments@.len() + 3,
        lines@[0]@ == csv_title(layout.stride),
        lines@[1]@ == CSV_COLUMNS@,
        forall|k: int| 0 <= k < layout.segments@.len() ==> (#[trigger] lines@[k + 2])@ == csv_line(layout.segments@[k]),
        lines@[layout.segments@.len() + 2int]@ == RULE@,
{
    let mut lines: Vec<String> = Vec::new();
    let mut title = String::from_str("# rusdd layout (at ");
    let size = format_byte_count(layout.stride);
    title.append(size.as_str());
    title.append(" stide)");
    lines.push(title);
    lines.push(String::from_str(CSV_COLUMNS));
    let n = layout.segments.len();
    let mut k: usize = 0;
    while k < n
        invariant
            n == layout.segments@.len(),
            k <= n,
            lines@.len() == k + 2,
            lines@[0]@ == csv_title(layout.stride),
            lines@[1]@ == CSV_COLUMNS@,
            forall|j: int| 0 <= j < n ==> seg_end(#[trigger] layout.segments@[j]) <= u64::MAX,
            forall|j: int| 0 <= j < k ==> (#[trigger] lines@[j + 2])@ == csv_line(layout.segments@[j]),
        decreases n - k,
    {
        let line = segment_csv(&layout.segments[k]);
        lines.push(line);
        k = k + 1;
    }
    lines.push(String::from_str(RULE));
    lines
}

/// "ON" or "OFF".
pub open spec fn on_off(b: bool) -> Seq<char> {
    if b {
        "ON"@
    } else {
        "OFF"@
    }
}

fn on_off_text(b: bool) -> (s: &'static str)
    ensures
        s@ == on_off(b),
{
    if b {
        "ON"
    } else {
        "OFF"
    }
}

impl Config {
    /// The welcome banner (a header when the output is redirected): version,
    /// source, chunk size, inspection and truncation flags, destination.
    pub fn banner(&self) -> (lines: Vec<String>)
        ensures
            lines@.len() == 8,
            lines@[0]@ == BANNER_TOP@,
            lines@[1]@ == "Really Useful Secure Digital Duplicator (v."@ + VERSION@ + ")"@,
            lines@[2]@ == "  IMAGING FROM: "@ + location_text(self.source@),
            lines@[3]@ == "  Chunk size: "@ + byte_count_text(self.chunk_size),
            lines@[4]@ == "  Inspection: "@ + on_off(self.inspect),
            lines@[5]@ == "  Truncation: "@ + on_off(self.truncate),
            lines@[6]@ == "  IMAGING INTO: "@ + location_text(self.destination@),
            lines@[7]@ == RULE@,
    {
        let mut lines: Vec<String> = Vec::new();
        lines.push(String::from_str(BANNER_TOP));
        let mut l1 = String::from_str("Really Useful Secure Digital Duplicator (v.");
        l1.append(VERSION);
        l1.append(")");
        lines.push(l1);
        let mut l2 = String::from_str("  IMAGING FROM: ");
        let src = self.source.display();
        l2.append(src.as_str());
        lines.push(l2);
        let mut l3 = String::from_str("  Chunk size: ");
        let size = format_byte_count(self.chunk_size);
        l3.append(size.as_str());
        lines.push(l3);
        let mut l4 = String::from_str("  Inspection: ");
        l4.append(on_off_text(self.inspect));
        lines.push(l4);
        let mut l5 = String::from_str("  Truncation: ");
        l5.append(on_off_text(self.truncate));
        lines.push(l5);
        let mut l6 = String::from_str("  IMAGING INTO: ");
        let dst = self.destination.display();
        l6.append(dst.as_str());
        lines.push(l6);
        lines.push(String::from_str(RULE));
        lines
    }
}

/// Major arguments of the command line.
pub const ARGUMENTS: &'static str = "
Major arguments (must be named - not positional):
  -s, --source <LOCATION>           What to image (drive or file) [required]
  -d, --destination <LOCATION>      Where to put (file or drive)";

/// Flags of the command line.
pub const FLAGS: &'static str = "
Flags (boolean toggles - false by default):
  -h, --help                        Show extended help with examples
  -i, --inspect                     Only inspect and print source layout
  -t, --truncate                    Truncate trailing same-byte patterns";

/// Optional parameters of the command line.
pub const PARAMS: &'static str = "
Parameters (optional):
      --chunk-size <N>              Reading block size (default: 32MiB)
                                    Must be power of 2 (for efficiency)
      --sector-size <N>             Physical sector size to read in bytes
                                    Possible values: [512, 1024, 2048, 4096]
            NOT IMPLEMENTED YET!    Enables recovery mode if provided";

/// Units accepted by sizes.
pub const UNITS: &'static str = "
Note: --chunk-size accepts unit suffixes (binary):
      B (bytes), K/KiB (1024 B), M/MiB (1024^2 B), G/GiB (1024^3 B)
      Examples: 512B, 256KiB, 32M, 1GiB";

/// How much help to show.
#[derive(Clone, Copy, Debug, PartialEq, Eq, Structural)]
pub enum HelpLevel {
    Usage,
    Extended,
}

/// The opening lines of every help text.
pub open spec fn help_head() -> Seq<Seq<char>> {
    seq![
        "rusdd - Really Useful Secure Digital Duplicator (ver."@ + VERSION@ + ")"@,
        "updates on: https://github.com/abramsci/rusdd"@,
        "\nUsage: rusdd [FLAGS] -s <SOURCE> -d <DEST> [PARAMS]"@,
    ]
}

/// The paragraphs of a help text, each to be printed on lines of its own.
pub open spec fn help_text(level: HelpLevel) -> Seq<Seq<char>> {
    match level {
        HelpLevel::Usage => help_head() + seq![ARGUMENTS@, FLAGS@, "Try 'rusdd -h' for more information."@],
        HelpLevel::Extended => help_head() + seq![ARGUMENTS@, FLAGS@, PARAMS@, UNITS@],
    }
}

/// The extended help opens with the lines every help text opens with, then
/// gives one paragraph each for the arguments, the flags, the parameters
/// and the units, in that order, and nothing else.
pub proof fn lemma_extended_help()
    ensures
        help_text(HelpLevel::Extended).len() == help_head().len() + 4,
        help_text(HelpLevel::Extended).subrange(0, help_head().len() as int) == help_head(),
        exists|i: int, j: int, k: int, l: int|
            #![trigger help_text(HelpLevel::Extended)[i], help_text(HelpLevel::Extended)[j], help_text(HelpLevel::Extended)[k], help_text(HelpLevel::Extended)[l]]
            help_head().len() <= i < j < k < l < help_text(HelpLevel::Extended).len()
                && help_text(HelpLevel::Extended)[i] == ARGUMENTS@
                && help_text(HelpLevel::Extended)[j] == FLAGS@
                && help_text(HelpLevel::Extended)[k] == PARAMS@
                && help_text(HelpLevel::Extended)[l] == UNITS@,
{
    let t = help_text(HelpLevel::Extended);
    let h = help_head().len() as int;
    assert(t.subrange(0, h) =~= help_head());
    assert(t[h] == ARGUMENTS@ && t[h + 1] == FLAGS@ && t[h + 2] == PARAMS@ && t[h + 3] == UNITS@);
}

/// The short usage opens with the same lines, gives the arguments and the
/// flags, in that order, and ends by pointing to the extended help.
pub proof fn lemma_usage_help()
    ensures
        help_text(HelpLevel::Usage).len() == help_head().len() + 3,
        help_text(HelpLevel::Usage).subrange(0, help_head().len() as int) == help_head(),
        exists|i: int, j: int|
            #![trigger help_text(HelpLevel::Usage)[i], help_text(HelpLevel::Usage)[j]]
            help_head().len() <= i < j < help_text(HelpLevel::Usage).len() - 1
                && help_text(HelpLevel::Usage)[i] == ARGUMENTS@
                && help_text(HelpLevel::Usage)[j] == FLAGS@,
        help_text(HelpLevel::Usage).last() == "Try 'rusdd -h' for more information."@,
{
    let t = help_text(HelpLevel::Usage);
    let h = help_head().len() as int;
    assert(t.subrange(0, h) =~= help_head());
    assert(t[h] == ARGUMENTS@ && t[h + 1] == FLAGS@);
}

/// The eight-digit essence column reads back, in hexadecimal, as the number
/// it shows: at least eight upper-case hexadecimal digits.
pub proof fn lemma_hex8_roundtrip(n: nat)
    ensures
        crate::text::hex_value(hex8(n)) == n,
        hex8(n).len() >= 8,
        n < 0x1_0000_0000 ==> hex8(n).len() == 8,
        forall|i: int| 0 <= i < hex8(n).len() ==> crate::text::hex_digit_value(#[trigger] hex8(n)[i]) >= 0,
{
    crate::text::lemma_padded_hex_roundtrip(n, 8);
    crate::text::lemma_hex_roundtrip(n);
    let h = hex(n);
    assert forall|i: int| 0 <= i < hex8(n).len() implies crate::text::hex_digit_value(#[trigger] hex8(n)[i]) >= 0 by {
        if h.len() < 8 {
            let z = Seq::new((8 - h.len()) as nat, |i: int| '0');
            if i >= z.len() {
                assert(hex8(n)[i] == h[i - z.len()]);
            }
        }
    }
    if n < 0x1_0000_0000 {
        lemma_hex_short(n);
    }
}

/// 16 to the power `k`.
spec fn power_of_sixteen(k: nat) -> nat
    decreases k,
{
    if k == 0 {
        1
    } else {
        16 * power_of_sixteen((k - 1) as nat)
    }
}

/// A number below 16^8 has at most eight hexadecimal digits.
proof fn lemma_hex_short(n: nat)
    requires
        n < 0x1_0000_0000,
    ensures
        hex(n).len() <= 8,
{
    reveal_with_fuel(power_of_sixteen, 9);
    assert(power_of_sixteen(8) == 0x1_0000_0000);
    lemma_hex_len_bound(n, 8);
}

/// A number below 16^k has at most k hexadecimal digits.
proof fn lemma_hex_len_bound(n: nat, k: nat)
    requires
        k >= 1,
        n < power_of_sixteen(k),
    ensures
        hex(n).len() <= k,
    decreases k,
{
    if n >= 16 {
        if k == 1 {
            assert(power_of_sixteen(0) == 1);
        } else {
            lemma_hex_len_bound(n / 16, (k - 1) as nat);
        }
    }
}

/// The views of a list of strings.
pub open spec fn texts(v: Seq<String>) -> Seq<Seq<char>> {
    v.map_values(|s: String| s@)
}

impl HelpLevel {
    /// The help text: name and version, where updates are, the usage line,
    /// then arguments and flags, followed by a pointer to the extended help
    /// (`Usage`) or by parameters and units (`Extended`).
    pub fn text(&self) -> (lines: Vec<String>)
        ensures
            texts(lines@) == help_text(*self),
    {
        let mut lines: Vec<String> = Vec::new();
        let mut l0 = String::from_str("rusdd - Really Useful Secure Digital Duplicator (ver.");
        l0.append(VERSION);
        l0.append(")");
        lines.push(l0);
        lines.push(String::from_str("updates on: https://github.com/abramsci/rusdd"));
        lines.push(String::from_str("\nUsage: rusdd [FLAGS] -s <SOURCE> -d <DEST> [PARAMS]"));
        lines.push(String::from_str(ARGUMENTS));
        lines.push(String::from_str(FLAGS));
        match self {
            HelpLevel::Usage => {
                lines.push(String::from_str("Try 'rusdd -h' for more information."));
            },
            HelpLevel::Extended => {
                lines.push(String::from_str(PARAMS));
                lines.push(String::from_str(UNITS));
            },
        }
        proof {
            assert(texts(lines@) =~= help_text(*self));
        }
        lines
    }
}

/// The closing report of an imaging run, in order: a note when recovery was
/// asked for, the full source size, then (truncating, when bytes were
/// skipped) the stop point and the trailing space skipped with its pattern
/// (the last segment's word when it is Ugly), and where the image went.
pub open spec fn imaging_report_spec(segs: Seq<Segment>, stride: u64, truncate: bool, recovery: bool, dest: Seq<char>) -> Seq<Seq<char>> {
    let total = layout_end(segs);
    let stop = if truncate {
        truncation_spec(segs, stride)
    } else {
        total
    };
    let skipped = total - stop;
    let pattern = if segs.len() > 0 && segs.last().status == Status::Ugly {
        "0x"@ + hex8(segs.last().essence as nat)
    } else {
        Seq::<char>::empty()
    };
    let note = if recovery {
        seq!["[NOTE] Recovery pass is not yet implemented"@]
    } else {
        Seq::<Seq<char>>::empty()
    };
    let trailing = if truncate && skipped > 0 {
        seq![
            "Stop point: "@ + decimal(stop as nat) + " ("@ + byte_count_text(stop as u64) + ")"@,
            "Trailing empty space ["@ + pattern + "]: "@ + byte_count_text(skipped as u64) + " skipped."@,
        ]
    } else {
        Seq::<Seq<char>>::empty()
    };
    note + seq!["Full source size: "@ + decimal(total as nat) + " ("@ + byte_count_text(total as u64) + ")"@]
        + trailing + seq!["Image was written to "@ + dest + " ("@ + byte_count_text(stop as u64) + "). Goodbye!"@]
}

/// "{n} ({human-readable n})".
fn count_with_size(s: &mut String, n: u64)
    ensures
        final(s)@ == old(s)@ + decimal(n as nat) + " ("@ + byte_count_text(n) + ")"@,
{
    push_decimal(s, n);
    s.append(" (");
    let size = format_byte_count(n);
    s.append(size.as_str());
    s.append(")");
}

/// The closing report of an imaging run (see `imaging_report_spec`).
pub fn imaging_report(layout: &Layout, truncate: bool, recovery: bool, destination: &Location) -> (lines: Vec<String>)
    requires
        layout_end(layout.segments@) <= u64::MAX,
        truncate ==> truncation_spec(layout.segments@, layout.stride) <= u64::MAX,
    ensures
        texts(lines@) == imaging_report_spec(
            layout.segments@,
            layout.stride,
            truncate,
            recovery,
            location_text(destination@),
        ),
{
    let mut lines: Vec<String> = Vec::new();
    if recovery {
        lines.push(String::from_str("[NOTE] Recovery pass is not yet implemented"));
    }
    let total = layout.total();
    let stop = if truncate {
        layout.truncation_point()
    } else {
        total
    };
    let mut full = String::from_str("Full source size: ");
    count_with_size(&mut full, total);
    lines.push(full);
    if truncate && stop < total {
        let skipped = total - stop;
        let mut pattern = String::new();
        let n = layout.segments.len();
        if n > 0 && layout.segments[n - 1].status == Status::Ugly {
            pattern.append("0x");
            push_hex_padded(&mut pattern, layout.segments[n - 1].essence as u64, 8);
        }
        let mut l1 = String::from_str("Stop point: ");
        count_with_size(&mut l1, stop);
        lines.push(l1);
        let mut l2 = String::from_str("Trailing empty space [");
        l2.append(pattern.as_str());
        l2.append("]: ");
        let size = format_byte_count(skipped);
        l2.append(size.as_str());
        l2.append(" skipped.");
        lines.push(l2);
    }
    let mut last = String::from_str("Image was written to ");
    let dst = destination.display();
    last.append(dst.as_str());
    last.append(" (");
    let size = format_byte_count(stop);
    last.append(size.as_str());
    last.append("). Goodbye!");
    lines.push(last);
    proof {
        assert(texts(lines@) =~= imaging_report_spec(
            layout.segments@,
            layout.stride,
            truncate,
            recovery,
            location_text(destination@),
        ));
    }
    lines
}

} // verus!
