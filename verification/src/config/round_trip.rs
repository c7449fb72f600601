//! What is written is read back: the proof that the parser gives every
//! configuration back from the text that the writer makes of it.
use vstd::prelude::*;
use crate::color::hex_digits;
use crate::color::hex_text;
use crate::color::is_lower_hex_digit;
use crate::color::lemma_parse_of_display;
use crate::color::Color;
use crate::config::grammar::color_list;
use crate::config::grammar::color_row;
use crate::config::grammar::decimal_value;
use crate::config::grammar::first_hash;
use crate::config::grammar::assemble;
use crate::config::grammar::flush;
use crate::config::grammar::initial;
use crate::config::grammar::interpret;
use crate::config::grammar::is_decimal_digit;
use crate::config::grammar::is_space;
use crate::config::grammar::lemma_scan_concat;
use crate::config::grammar::parsed;
use crate::config::grammar::scan;
use crate::config::grammar::step;
use crate::config::grammar::trim_end;
use crate::config::grammar::trim_start;
use crate::config::grammar::trimmed;
use crate::config::grammar::unsigned_digits;
use crate::config::grammar::weight_of;
use crate::config::grammar::weighted_color;
use crate::config::grammar::weighted_row;
use crate::config::grammar::with_current_line;
use crate::config::grammar::ColorsDraft;
use crate::config::grammar::CurrentDraft;
use crate::config::grammar::Draft;
use crate::config::grammar::Phase;
use crate::config::grammar::Scanner;
use crate::config::lemma_mode_names;
use crate::config::mode_named;
use crate::config::section_named;
use crate::config::weight_at;
use crate::config::writer::color_lines;
use crate::config::writer::decimal_digit;
use crate::config::writer::decimal_text;
use crate::config::writer::file_lines;
use crate::config::writer::flag_text;
use crate::config::writer::header;
use crate::config::writer::line;
use crate::config::writer::preamble;
use crate::config::writer::row_lines;
use crate::config::writer::row_text;
use crate::config::writer::written;
use crate::config::ConfigModel;
use crate::config::GradientModel;
use crate::config::MapModel;
use crate::config::Mode;
use crate::config::Section;

verus! {

/// A text that can stand on a line of its own: it is not empty, does not
/// begin with `[`, and holds no newline behind its first character.
pub open spec fn is_plain_line(content: Seq<char>) -> bool {
    &&& content.len() > 0
    &&& content[0] != '['
    &&& forall|i: int| 1 <= i < content.len() ==> content[i] != '\n'
}

/// Paths that come back as they are: each is a plain line, and the last
/// one does not end in white space.
pub open spec fn plain_paths(files: Seq<Seq<char>>) -> bool {
    &&& forall|i: int| 0 <= i < files.len() ==> is_plain_line(#[trigger] files[i])
    &&& files.len() > 0 ==> !is_space(files.last().last())
}

/// What every configuration that was read has: a weight for each entry of
/// its colors, at least one entry, and in map mode a current row that is
/// not empty.
pub open spec fn is_complete(config: ConfigModel) -> bool {
    match config {
        ConfigModel::Gradient(g) => g.colors.len() > 0 && g.weights.len() == g.colors.len(),
        ConfigModel::Mapping(m) => m.colors.len() > 0 && m.weights.len() == m.colors.len()
            && m.current_color.len() > 0,
    }
}

/// The scanner at the beginning of a line of `section`.
pub open spec fn at_line_start(section: Section, draft: Draft) -> Scanner {
    Scanner { phase: Phase::NewLine, section: section, pending: Seq::empty(), draft: draft }
}

/// Neither a newline nor a bracket stands in `s`.
pub open spec fn is_inline(s: Seq<char>) -> bool {
    forall|i: int| 0 <= i < s.len() ==> s[i] != '\n' && s[i] != '[' && s[i] != ']'
}

spec fn draft_shape(d: Draft) -> bool {
    &&& match d.colors {
        ColorsDraft::Unset => d.weights.len() == 0,
        ColorsDraft::Singles(list) => list.len() > 0 && list.len() == d.weights.len(),
        ColorsDraft::Rows(rows) => rows.len() > 0 && rows.len() == d.weights.len(),
    }
    &&& match d.current {
        CurrentDraft::Single(_) => true,
        CurrentDraft::Row(row) => row.len() > 0,
    }
}

proof fn lemma_interpret_shape(d: Draft, section: Section, content: Seq<char>)
    requires
        draft_shape(d),
        interpret(d, section, content) is Some,
    ensures
        draft_shape(interpret(d, section, content).unwrap()),
{
}

proof fn lemma_scan_shape(sc: Scanner, text: Seq<char>)
    requires
        draft_shape(sc.draft),
        scan(sc, text) is Some,
    ensures
        draft_shape(scan(sc, text).unwrap().draft),
    decreases text.len(),
{
    if text.len() > 0 {
        lemma_scan_shape(sc, text.drop_last());
        let before = scan(sc, text.drop_last()).unwrap();
        if before.phase == Phase::Text && text.last() == '\n' {
            lemma_interpret_shape(before.draft, before.section, before.pending);
        }
    }
}

/// Every configuration that was read is complete.
pub proof fn lemma_parsed_is_complete(text: Seq<char>)
    requires
        parsed(text) is Some,
    ensures
        is_complete(parsed(text).unwrap()),
{
    let body = trimmed(text);
    lemma_scan_shape(initial(), body);
    let sc = scan(initial(), body).unwrap();
    if sc.pending.len() > 0 {
        lemma_interpret_shape(sc.draft, sc.section, sc.pending);
    }
}

proof fn lemma_scan_push(sc: Scanner, s: Seq<char>, c: char)
    ensures
        scan(sc, s.push(c)) == match scan(sc, s) {
            None => None,
            Some(mid) => step(mid, c),
        },
{
    assert(s.push(c).drop_last() =~= s);
}

proof fn lemma_scan_then(sc: Scanner, a: Seq<char>, mid: Scanner, b: Seq<char>, out: Scanner)
    requires
        scan(sc, a) == Some(mid),
        scan(mid, b) == Some(out),
    ensures
        scan(sc, a + b) == Some(out),
{
    lemma_scan_concat(sc, a, b);
}

/// Inside a header every character but `]` is gathered, inside a line
/// every character but the newline.
proof fn lemma_scan_gathers(sc: Scanner, s: Seq<char>)
    requires
        sc.phase == Phase::BraceOpen || sc.phase == Phase::Text,
        sc.phase == Phase::BraceOpen ==> forall|i: int| 0 <= i < s.len() ==> s[i] != ']',
        sc.phase == Phase::Text ==> forall|i: int| 0 <= i < s.len() ==> s[i] != '\n',
    ensures
        scan(sc, s) == Some(Scanner { pending: sc.pending + s, ..sc }),
    decreases s.len(),
{
    if s.len() == 0 {
        assert(sc.pending + s =~= sc.pending);
    } else {
        lemma_scan_gathers(sc, s.drop_last());
        assert((sc.pending + s.drop_last()).push(s.last()) =~= sc.pending + s);
    }
}

/// A header moves the scanner to the beginning of the first line of its
/// section. Before its newline the scanner stands behind the bracket.
proof fn lemma_scan_header(sc: Scanner, name: Seq<char>, section: Section)
    requires
        sc.phase == Phase::Start || sc.phase == Phase::NewLine,
        sc.pending.len() == 0,
        is_inline(name),
        section_named(name) == Some(section),
    ensures
        scan(sc, seq!['['] + name + seq![']']) == Some(
            Scanner {
                phase: Phase::BraceClosed,
                section: section,
                pending: Seq::empty(),
                draft: sc.draft,
            },
        ),
        scan(sc, header(name)) == Some(at_line_start(section, sc.draft)),
{
    let opened = Scanner { phase: Phase::BraceOpen, ..sc };
    assert(sc.pending =~= Seq::<char>::empty());
    lemma_scan_push(sc, Seq::empty(), '[');
    assert(Seq::<char>::empty().push('[') =~= seq!['[']);
    assert(scan(sc, seq!['[']) == Some(opened));
    lemma_scan_gathers(opened, name);
    let named = Scanner { pending: opened.pending + name, ..opened };
    assert(opened.pending + name =~= name);
    lemma_scan_then(sc, seq!['['], opened, name, named);
    lemma_scan_push(sc, seq!['['] + name, ']');
    assert((seq!['['] + name).push(']') =~= seq!['['] + name + seq![']']);
    lemma_scan_push(sc, seq!['['] + name + seq![']'], '\n');
    assert((seq!['['] + name + seq![']']).push('\n') =~= header(name));
}

/// The characters of a plain line are gathered from the beginning of the
/// line on.
proof fn lemma_scan_content(section: Section, draft: Draft, content: Seq<char>)
    requires
        is_plain_line(content),
    ensures
        scan(at_line_start(section, draft), content) == Some(
            Scanner { phase: Phase::Text, section: section, pending: content, draft: draft },
        ),
{
    let sc = at_line_start(section, draft);
    let first = seq![content[0]];
    let begun = Scanner { phase: Phase::Text, section: section, pending: first, draft: draft };
    lemma_scan_push(sc, Seq::empty(), content[0]);
    assert(Seq::<char>::empty().push(content[0]) =~= first);
    assert(sc.pending.push(content[0]) =~= first);
    assert(scan(sc, first) == Some(begun));
    let rest = content.drop_first();
    lemma_scan_gathers(begun, rest);
    assert(first + rest =~= content);
    lemma_scan_then(sc, first, begun, rest, Scanner { pending: first + rest, ..begun });
}

/// A plain line with its newline is interpreted in its section.
proof fn lemma_scan_line(section: Section, draft: Draft, content: Seq<char>, next: Draft)
    requires
        is_plain_line(content),
        interpret(draft, section, content) == Some(next),
    ensures
        scan(at_line_start(section, draft), line(content)) == Some(at_line_start(section, next)),
{
    lemma_scan_content(section, draft, content);
    lemma_scan_push(at_line_start(section, draft), content, '\n');
    assert(content.push('\n') =~= line(content));
}

proof fn lemma_inline_concat(a: Seq<char>, b: Seq<char>)
    requires
        is_inline(a),
        is_inline(b),
    ensures
        is_inline(a + b),
{
}

proof fn lemma_inline_is_plain(s: Seq<char>)
    requires
        is_inline(s),
        s.len() > 0,
    ensures
        is_plain_line(s),
{
}

/// The decimal text of a number is made of digits and writes the number.
proof fn lemma_decimal_text(n: nat)
    ensures
        decimal_text(n).len() > 0,
        forall|i: int|
            0 <= i < decimal_text(n).len() ==> is_decimal_digit(#[trigger] decimal_text(n)[i]),
        decimal_value(decimal_text(n)) == n,
    decreases n,
{
    let t = decimal_text(n);
    assert(t.last() == decimal_digit(n as int % 10));
    assert(t.last() as int - '0' as int == n as int % 10);
    if n >= 10 {
        lemma_decimal_text(n / 10);
        assert(t.drop_last() =~= decimal_text(n / 10));
        assert forall|i: int| 0 <= i < t.len() implies is_decimal_digit(#[trigger] t[i]) by {
            if i < t.len() - 1 {
                assert(t[i] == decimal_text(n / 10)[i]);
            }
        }
    } else {
        assert(t.drop_last() =~= Seq::<char>::empty());
        assert(decimal_value(Seq::<char>::empty()) == 0);
    }
}

proof fn lemma_decimal_inline(n: nat)
    ensures
        is_inline(decimal_text(n)),
        decimal_text(n).len() > 0,
        forall|i: int| 0 <= i < decimal_text(n).len() ==> decimal_text(n)[i] != '#',
{
    lemma_decimal_text(n);
    assert forall|i: int| 0 <= i < decimal_text(n).len() implies decimal_text(n)[i] != '#'
        && decimal_text(n)[i] != '\n' && decimal_text(n)[i] != '[' && decimal_text(n)[i]
        != ']' by {
        assert(is_decimal_digit(decimal_text(n)[i]));
    }
}

/// A weight that was written is read as it was.
proof fn lemma_weight_of_decimal(w: usize)
    ensures
        weight_of(decimal_text(w as nat)) == w,
{
    let t = decimal_text(w as nat);
    lemma_decimal_text(w as nat);
    assert(is_decimal_digit(t[0]));
    assert(unsigned_digits(t) == t);
}

proof fn lemma_hex_text_inline(c: Color)
    ensures
        is_inline(hex_text(c)),
        is_inline(hex_digits(c)),
        hex_text(c).len() == 7,
        hex_text(c)[0] == '#',
        forall|i: int| 0 <= i < 6 ==> hex_digits(c)[i] != '#',
{
    lemma_parse_of_display(c);
    assert forall|i: int| 0 <= i < 6 implies hex_digits(c)[i] != '#' && hex_digits(c)[i] != '\n'
        && hex_digits(c)[i] != '[' && hex_digits(c)[i] != ']' by {
        assert(is_lower_hex_digit(hex_digits(c)[i]));
    }
    assert forall|i: int| 0 <= i < 7 implies hex_text(c)[i] != '\n' && hex_text(c)[i] != '['
        && hex_text(c)[i] != ']' by {
        if i > 0 {
            assert(hex_text(c)[i] == hex_digits(c)[i - 1]);
        }
    }
}

proof fn lemma_row_text_inline(row: Seq<Color>)
    ensures
        is_inline(row_text(row)),
        row.len() > 0 ==> row_text(row).len() > 0 && row_text(row)[0] == '#',
        row.len() == 0 ==> row_text(row).len() == 0,
    decreases row.len(),
{
    if row.len() > 0 {
        lemma_hex_text_inline(row[0]);
        lemma_row_text_inline(row.drop_first());
        lemma_inline_concat(hex_text(row[0]), row_text(row.drop_first()));
    }
}

/// The first `#` of a text stands behind a front that holds none.
proof fn lemma_first_hash_skips(front: Seq<char>, rest: Seq<char>)
    requires
        forall|i: int| 0 <= i < front.len() ==> front[i] != '#',
    ensures
        first_hash(front + rest) == front.len() + first_hash(rest),
    decreases front.len(),
{
    if front.len() == 0 {
        assert(front + rest =~= rest);
    } else {
        assert((front + rest).drop_first() =~= front.drop_first() + rest);
        lemma_first_hash_skips(front.drop_first(), rest);
    }
}

/// The colors of a row are read back from its text without the first `#`.
proof fn lemma_color_list_of_row(row: Seq<Color>)
    requires
        row.len() > 0,
    ensures
        color_list(row_text(row).drop_first()) == Some(row),
    decreases row.len(),
{
    let first = row[0];
    let tail = row.drop_first();
    let s = row_text(row).drop_first();
    lemma_hex_text_inline(first);
    lemma_parse_of_display(first);
    lemma_row_text_inline(tail);
    assert(hex_text(first).drop_first() =~= hex_digits(first));
    assert(s =~= hex_digits(first) + row_text(tail));
    lemma_first_hash_skips(hex_digits(first), row_text(tail));
    assert(s.take(6) =~= hex_digits(first));
    if tail.len() == 0 {
        assert(first_hash(s) == 6);
        assert(seq![first] =~= row);
    } else {
        assert(first_hash(row_text(tail)) == 0);
        assert(first_hash(s) == 6);
        assert(s.skip(7) =~= row_text(tail).drop_first());
        lemma_color_list_of_row(tail);
        assert(seq![first] + tail =~= row);
    }
}

/// The line of a color with its weight is read back.
proof fn lemma_read_color_line(w: usize, c: Color)
    ensures
        weighted_color(decimal_text(w as nat) + hex_text(c)) == Some((w, c)),
        is_plain_line(decimal_text(w as nat) + hex_text(c)),
{
    let front = decimal_text(w as nat);
    let content = front + hex_text(c);
    lemma_decimal_inline(w as nat);
    lemma_hex_text_inline(c);
    lemma_parse_of_display(c);
    lemma_inline_concat(front, hex_text(c));
    lemma_inline_is_plain(content);
    lemma_first_hash_skips(front, hex_text(c));
    assert(first_hash(hex_text(c)) == 0);
    assert(content.take(front.len() as int) =~= front);
    assert(content.skip(front.len() as int + 1) =~= hex_digits(c));
    lemma_weight_of_decimal(w);
}

/// The line of a row with its weight is read back.
proof fn lemma_read_row_line(w: usize, row: Seq<Color>)
    ensures
        weighted_row(decimal_text(w as nat) + row_text(row)) == Some((w, row)),
        is_plain_line(decimal_text(w as nat) + row_text(row)),
{
    let front = decimal_text(w as nat);
    let content = front + row_text(row);
    lemma_decimal_inline(w as nat);
    lemma_row_text_inline(row);
    lemma_inline_concat(front, row_text(row));
    lemma_inline_is_plain(content);
    lemma_first_hash_skips(front, row_text(row));
    lemma_weight_of_decimal(w);
    if row.len() == 0 {
        assert(content =~= front);
        assert(first_hash(row_text(row)) == 0);
        assert(row =~= Seq::<Color>::empty());
    } else {
        assert(first_hash(row_text(row)) == 0);
        assert(content.take(front.len() as int) =~= front);
        assert(content.skip(front.len() as int + 1) =~= row_text(row).drop_first());
        lemma_color_list_of_row(row);
    }
}

/// The line of the current row is read back.
proof fn lemma_read_current_row(row: Seq<Color>)
    requires
        row.len() > 0,
    ensures
        color_row(row_text(row)) == Some(row),
        is_plain_line(row_text(row)),
{
    lemma_row_text_inline(row);
    lemma_inline_is_plain(row_text(row));
    lemma_color_list_of_row(row);
}

/// What the names of the sections, of the modes and of the flags hold.
proof fn lemma_names()
    ensures
        section_named("mode"@) == Some(Section::Mode),
        section_named("overwrite"@) == Some(Section::Overwrite),
        section_named("current_color"@) == Some(Section::CurrentColor),
        section_named("colors"@) == Some(Section::Colors),
        section_named("target_files"@) == Some(Section::TargetFiles),
        is_inline("mode"@),
        is_inline("overwrite"@),
        is_inline("current_color"@),
        is_inline("colors"@),
        is_inline("target_files"@),
        is_plain_line("gradient"@),
        is_plain_line("map"@),
        is_plain_line("true"@),
        is_plain_line("false"@),
        "true"@ != "false"@,
{
    reveal_strlit("mode");
    reveal_strlit("overwrite");
    reveal_strlit("current_color");
    reveal_strlit("colors");
    reveal_strlit("target_files");
    reveal_strlit("gradient");
    reveal_strlit("map");
    reveal_strlit("true");
    reveal_strlit("false");
    assert("mode"@.len() == 4);
    assert("overwrite"@.len() == 9);
    assert("current_color"@.len() == 13);
    assert("colors"@.len() == 6);
    assert("target_files"@.len() == 12);
    assert("true"@.len() == 4);
    assert("false"@.len() == 5);
}

/// The draft with the first `n` colors and their weights.
spec fn with_colors(d: Draft, colors: Seq<Color>, weights: Seq<usize>, n: nat) -> Draft {
    if n == 0 {
        d
    } else {
        Draft {
            colors: ColorsDraft::Singles(colors.take(n as int)),
            weights: weights.take(n as int),
            ..d
        }
    }
}

/// The draft with the first `n` rows and their weights.
spec fn with_rows(d: Draft, rows: Seq<Seq<Color>>, weights: Seq<usize>, n: nat) -> Draft {
    if n == 0 {
        d
    } else {
        Draft {
            colors: ColorsDraft::Rows(rows.take(n as int)),
            weights: weights.take(n as int),
            ..d
        }
    }
}

/// The draft with the first `n` paths.
spec fn with_files(d: Draft, files: Seq<Seq<char>>, n: nat) -> Draft {
    if n == 0 {
        d
    } else {
        Draft { target_files: files.take(n as int), ..d }
    }
}

/// The lines of the colors of a gradient configuration are read back.
proof fn lemma_scan_color_lines(d: Draft, colors: Seq<Color>, weights: Seq<usize>, n: nat)
    requires
        d.mode == Some(Mode::Gradient),
        d.colors == ColorsDraft::Unset,
        d.weights == Seq::<usize>::empty(),
        weights.len() == colors.len(),
        n <= colors.len(),
    ensures
        scan(at_line_start(Section::Colors, d), color_lines(colors, weights, n)) == Some(
            at_line_start(Section::Colors, with_colors(d, colors, weights, n)),
        ),
    decreases n,
{
    if n > 0 {
        let k = (n - 1) as nat;
        lemma_scan_color_lines(d, colors, weights, k);
        let before = with_colors(d, colors, weights, k);
        let after = with_colors(d, colors, weights, n);
        let content = decimal_text(weight_at(weights, k as int)) + hex_text(colors[k as int]);
        lemma_read_color_line(weights[k as int], colors[k as int]);
        assert(colors.take(n as int) =~= colors.take(k as int).push(colors[k as int]));
        assert(weights.take(n as int) =~= weights.take(k as int).push(weights[k as int]));
        if k == 0 {
            assert(colors.take(1) =~= seq![colors[0]]);
            assert(weights.take(1) =~= Seq::<usize>::empty().push(weights[0]));
        }
        assert(interpret(before, Section::Colors, content) == Some(after));
        lemma_scan_line(Section::Colors, before, content, after);
        lemma_scan_then(
            at_line_start(Section::Colors, d),
            color_lines(colors, weights, k),
            at_line_start(Section::Colors, before),
            line(content),
            at_line_start(Section::Colors, after),
        );
    }
}

/// The lines of the rows of a map configuration are read back.
proof fn lemma_scan_row_lines(d: Draft, rows: Seq<Seq<Color>>, weights: Seq<usize>, n: nat)
    requires
        d.mode == Some(Mode::Mapping),
        d.colors == ColorsDraft::Unset,
        d.weights == Seq::<usize>::empty(),
        weights.len() == rows.len(),
        n <= rows.len(),
    ensures
        scan(at_line_start(Section::Colors, d), row_lines(rows, weights, n)) == Some(
            at_line_start(Section::Colors, with_rows(d, rows, weights, n)),
        ),
    decreases n,
{
    if n > 0 {
        let k = (n - 1) as nat;
        lemma_scan_row_lines(d, rows, weights, k);
        let before = with_rows(d, rows, weights, k);
        let after = with_rows(d, rows, weights, n);
        let content = decimal_text(weight_at(weights, k as int)) + row_text(rows[k as int]);
        lemma_read_row_line(weights[k as int], rows[k as int]);
        assert(rows.take(n as int) =~= rows.take(k as int).push(rows[k as int]));
        assert(weights.take(n as int) =~= weights.take(k as int).push(weights[k as int]));
        if k == 0 {
            assert(rows.take(1) =~= seq![rows[0]]);
            assert(weights.take(1) =~= Seq::<usize>::empty().push(weights[0]));
        }
        assert(interpret(before, Section::Colors, content) == Some(after));
        lemma_scan_line(Section::Colors, before, content, after);
        lemma_scan_then(
            at_line_start(Section::Colors, d),
            row_lines(rows, weights, k),
            at_line_start(Section::Colors, before),
            line(content),
            at_line_start(Section::Colors, after),
        );
    }
}

/// The lines of the paths are read back.
proof fn lemma_scan_file_lines(d: Draft, files: Seq<Seq<char>>, n: nat)
    requires
        d.target_files == Seq::<Seq<char>>::empty(),
        forall|i: int| 0 <= i < files.len() ==> is_plain_line(#[trigger] files[i]),
        n <= files.len(),
    ensures
        scan(at_line_start(Section::TargetFiles, d), file_lines(files, n)) == Some(
            at_line_start(Section::TargetFiles, with_files(d, files, n)),
        ),
    decreases n,
{
    if n > 0 {
        let k = (n - 1) as nat;
        lemma_scan_file_lines(d, files, k);
        let before = with_files(d, files, k);
        let after = with_files(d, files, n);
        let content = files[k as int];
        assert(files.take(n as int) =~= files.take(k as int).push(content));
        if k == 0 {
            assert(files.take(1) =~= Seq::<Seq<char>>::empty().push(content));
        }
        assert(interpret(before, Section::TargetFiles, content) == Some(after));
        lemma_scan_line(Section::TargetFiles, before, content, after);
        lemma_scan_then(
            at_line_start(Section::TargetFiles, d),
            file_lines(files, k),
            at_line_start(Section::TargetFiles, before),
            line(content),
            at_line_start(Section::TargetFiles, after),
        );
    }
}

/// A text that begins with a bracket and ends in a newline behind
/// something else loses just that newline when it is trimmed.
proof fn lemma_trimmed_drops_newline(t: Seq<char>)
    requires
        t.len() >= 2,
        t[0] == '[',
        t.last() == '\n',
        !is_space(t[t.len() - 2]),
    ensures
        trimmed(t) == t.drop_last(),
{
    assert(trim_start(t) == t);
    assert(is_space(t.last()));
    assert(t.drop_last().last() == t[t.len() - 2]);
    assert(trim_end(t.drop_last()) == t.drop_last());
}

/// The sections before the colors, and the header of the colors, are read
/// back.
proof fn lemma_scan_preamble(
    mode: Mode,
    name: Seq<char>,
    overwrite: bool,
    current_text: Seq<char>,
    current: CurrentDraft,
)
    requires
        mode_named(name) == Some(mode),
        is_plain_line(name),
        is_plain_line(current_text),
        with_current_line(
            Draft { mode: Some(mode), overwrite: overwrite, ..initial().draft },
            current_text,
        ) == Some(
            Draft { mode: Some(mode), overwrite: overwrite, current: current, ..initial().draft },
        ),
    ensures
        scan(initial(), preamble(name, overwrite, current_text) + header("colors"@)) == Some(
            at_line_start(
                Section::Colors,
                Draft {
                    mode: Some(mode),
                    overwrite: overwrite,
                    current: current,
                    ..initial().draft
                },
            ),
        ),
{
    lemma_names();
    let d0 = initial().draft;
    let d1 = Draft { mode: Some(mode), ..d0 };
    let d2 = Draft { overwrite: overwrite, ..d1 };
    let d3 = Draft { current: current, ..d2 };
    let front_a = header("mode"@);
    lemma_scan_header(initial(), "mode"@, Section::Mode);
    let front_b = front_a + line(name);
    lemma_scan_line(Section::Mode, d0, name, d1);
    lemma_scan_then(
        initial(),
        front_a,
        at_line_start(Section::Mode, d0),
        line(name),
        at_line_start(Section::Mode, d1),
    );
    let front_c = front_b + header("overwrite"@);
    lemma_scan_header(at_line_start(Section::Mode, d1), "overwrite"@, Section::Overwrite);
    lemma_scan_then(
        initial(),
        front_b,
        at_line_start(Section::Mode, d1),
        header("overwrite"@),
        at_line_start(Section::Overwrite, d1),
    );
    let front_d = front_c + line(flag_text(overwrite));
    assert(interpret(d1, Section::Overwrite, flag_text(overwrite)) == Some(d2));
    lemma_scan_line(Section::Overwrite, d1, flag_text(overwrite), d2);
    lemma_scan_then(
        initial(),
        front_c,
        at_line_start(Section::Overwrite, d1),
        line(flag_text(overwrite)),
        at_line_start(Section::Overwrite, d2),
    );
    let front_e = front_d + header("current_color"@);
    lemma_scan_header(
        at_line_start(Section::Overwrite, d2),
        "current_color"@,
        Section::CurrentColor,
    );
    lemma_scan_then(
        initial(),
        front_d,
        at_line_start(Section::Overwrite, d2),
        header("current_color"@),
        at_line_start(Section::CurrentColor, d2),
    );
    let front_f = front_e + line(current_text);
    assert(interpret(d2, Section::CurrentColor, current_text) == Some(d3));
    lemma_scan_line(Section::CurrentColor, d2, current_text, d3);
    lemma_scan_then(
        initial(),
        front_e,
        at_line_start(Section::CurrentColor, d2),
        line(current_text),
        at_line_start(Section::CurrentColor, d3),
    );
    assert(front_f == preamble(name, overwrite, current_text));
    lemma_scan_header(at_line_start(Section::CurrentColor, d3), "colors"@, Section::Colors);
    lemma_scan_then(
        initial(),
        front_f,
        at_line_start(Section::CurrentColor, d3),
        header("colors"@),
        at_line_start(Section::Colors, d3),
    );
}

/// The section of the paths at the end of a text is read back. The text
/// before it, `front`, has brought the scanner to the beginning of a line.
proof fn lemma_scan_paths(front: Seq<char>, section: Section, d: Draft, files: Seq<Seq<char>>)
    requires
        front.len() > 0,
        front[0] == '[',
        scan(initial(), front) == Some(at_line_start(section, d)),
        d.target_files == Seq::<Seq<char>>::empty(),
        plain_paths(files),
    ensures
        ({
            let t = front + header("target_files"@) + file_lines(files, files.len());
            &&& trimmed(t) == t.drop_last()
            &&& match scan(initial(), t.drop_last()) {
                Some(sc) => flush(sc) == Some(Draft { target_files: files, ..d }),
                None => false,
            }
        }),
{
    lemma_names();
    let name = "target_files"@;
    let t = front + header(name) + file_lines(files, files.len());
    let m = files.len();
    let here = at_line_start(section, d);
    lemma_scan_header(here, name, Section::TargetFiles);
    if m == 0 {
        let bracket = seq!['['] + name + seq![']'];
        assert(t.drop_last() =~= front + bracket);
        assert(t[t.len() - 2] == ']');
        assert(t[0] == front[0]);
        lemma_trimmed_drops_newline(t);
        let closed = Scanner {
            phase: Phase::BraceClosed,
            section: Section::TargetFiles,
            pending: Seq::empty(),
            draft: d,
        };
        lemma_scan_then(initial(), front, here, bracket, closed);
        assert(files =~= Seq::<Seq<char>>::empty());
    } else {
        let k = (m - 1) as nat;
        let last = files[k as int];
        assert(is_plain_line(last));
        let y = front + header(name) + file_lines(files, k);
        assert(t =~= y + line(last));
        assert(t.drop_last() =~= y + last);
        assert(t[t.len() - 2] == last.last());
        assert(last == files.last());
        assert(t[0] == front[0]);
        lemma_trimmed_drops_newline(t);
        let started = at_line_start(Section::TargetFiles, d);
        lemma_scan_then(initial(), front, here, header(name), started);
        lemma_scan_file_lines(d, files, k);
        let before = with_files(d, files, k);
        lemma_scan_then(
            initial(),
            front + header(name),
            started,
            file_lines(files, k),
            at_line_start(Section::TargetFiles, before),
        );
        lemma_scan_content(Section::TargetFiles, before, last);
        let inside = Scanner {
            phase: Phase::Text,
            section: Section::TargetFiles,
            pending: last,
            draft: before,
        };
        lemma_scan_then(initial(), y, at_line_start(Section::TargetFiles, before), last, inside);
        assert(files.take(k as int).push(last) =~= files);
        if k == 0 {
            assert(Seq::<Seq<char>>::empty().push(last) =~= files);
        }
    }
}

/// A gradient configuration is read back from its text.
proof fn lemma_gradient_is_read_back(g: GradientModel)
    requires
        g.colors.len() > 0,
        g.weights.len() == g.colors.len(),
        plain_paths(g.target_files),
    ensures
        parsed(written(ConfigModel::Gradient(g))) == Some(ConfigModel::Gradient(g)),
{
    let d0 = initial().draft;
    let shown = hex_text(g.current_color);
    lemma_names();
    lemma_mode_names();
    lemma_hex_text_inline(g.current_color);
    lemma_inline_is_plain(shown);
    lemma_parse_of_display(g.current_color);
    let current = CurrentDraft::Single(g.current_color);
    lemma_scan_preamble(Mode::Gradient, "gradient"@, g.overwrite, shown, current);
    let d3 = Draft { mode: Some(Mode::Gradient), overwrite: g.overwrite, current: current, ..d0 };
    let upto_colors = preamble("gradient"@, g.overwrite, shown) + header("colors"@);
    let n = g.colors.len();
    lemma_scan_color_lines(d3, g.colors, g.weights, n);
    let d4 = with_colors(d3, g.colors, g.weights, n);
    let upto_paths = upto_colors + color_lines(g.colors, g.weights, n);
    lemma_scan_then(
        initial(),
        upto_colors,
        at_line_start(Section::Colors, d3),
        color_lines(g.colors, g.weights, n),
        at_line_start(Section::Colors, d4),
    );
    assert(upto_paths[0] == '[');
    lemma_scan_paths(upto_paths, Section::Colors, d4, g.target_files);
    assert(g.colors.take(n as int) =~= g.colors);
    assert(g.weights.take(n as int) =~= g.weights);
    let t = upto_paths + header("target_files"@) + file_lines(g.target_files, g.target_files.len());
    assert(t == written(ConfigModel::Gradient(g)));
    let d5 = Draft { target_files: g.target_files, ..d4 };
    assert(assemble(d5) == Some(ConfigModel::Gradient(g)));
}

/// A map configuration is read back from its text.
proof fn lemma_map_is_read_back(m: MapModel)
    requires
        m.colors.len() > 0,
        m.weights.len() == m.colors.len(),
        m.current_color.len() > 0,
        plain_paths(m.target_files),
    ensures
        parsed(written(ConfigModel::Mapping(m))) == Some(ConfigModel::Mapping(m)),
{
    let d0 = initial().draft;
    let shown = row_text(m.current_color);
    lemma_names();
    lemma_mode_names();
    lemma_read_current_row(m.current_color);
    let current = CurrentDraft::Row(m.current_color);
    lemma_scan_preamble(Mode::Mapping, "map"@, m.overwrite, shown, current);
    let d3 = Draft { mode: Some(Mode::Mapping), overwrite: m.overwrite, current: current, ..d0 };
    let upto_colors = preamble("map"@, m.overwrite, shown) + header("colors"@);
    let n = m.colors.len();
    lemma_scan_row_lines(d3, m.colors, m.weights, n);
    let d4 = with_rows(d3, m.colors, m.weights, n);
    let upto_paths = upto_colors + row_lines(m.colors, m.weights, n);
    lemma_scan_then(
        initial(),
        upto_colors,
        at_line_start(Section::Colors, d3),
        row_lines(m.colors, m.weights, n),
        at_line_start(Section::Colors, d4),
    );
    assert(upto_paths[0] == '[');
    lemma_scan_paths(upto_paths, Section::Colors, d4, m.target_files);
    assert(m.colors.take(n as int) =~= m.colors);
    assert(m.weights.take(n as int) =~= m.weights);
    let t = upto_paths + header("target_files"@) + file_lines(m.target_files, m.target_files.len());
    assert(t == written(ConfigModel::Mapping(m)));
    let d5 = Draft { target_files: m.target_files, ..d4 };
    assert(assemble(d5) == Some(ConfigModel::Mapping(m)));
}

/// A configuration is read back from its text: parsing what the writer
/// makes of a complete configuration with plain paths gives the
/// configuration, equal in every field.
pub proof fn lemma_written_is_read_back(config: ConfigModel)
    requires
        is_complete(config),
        plain_paths(config.target_files()),
    ensures
        parsed(written(config)) == Some(config),
{
    match config {
        ConfigModel::Gradient(g) => lemma_gradient_is_read_back(g),
        ConfigModel::Mapping(m) => lemma_map_is_read_back(m),
    }
}

/// Parsing a text, writing the configuration and parsing again gives the
/// same configuration, equal in every field, for every text whose paths
/// are plain: each on a line of its own, the last without white space at
/// its end.
pub proof fn lemma_round_trip(text: Seq<char>)
    requires
        parsed(text) is Some,
        plain_paths(parsed(text).unwrap().target_files()),
    ensures
        parsed(written(parsed(text).unwrap())) == parsed(text),
{
    lemma_parsed_is_complete(text);
    lemma_written_is_read_back(parsed(text).unwrap());
}

/// Nothing but white space stands in `s`.
pub open spec fn is_blank(s: Seq<char>) -> bool {
    forall|i: int| 0 <= i < s.len() ==> is_space(s[i])
}

/// The paths as they come back from the text: blank paths at the end are
/// gone, and the last path that is left has lost the white space at its
/// end.
pub open spec fn settled(files: Seq<Seq<char>>) -> Seq<Seq<char>>
    decreases files.len(),
{
    if files.len() == 0 {
        files
    } else if is_blank(files.last()) {
        settled(files.drop_last())
    } else {
        files.drop_last().push(trim_end(files.last()))
    }
}

/// The configuration with other paths.
pub open spec fn with_paths(config: ConfigModel, files: Seq<Seq<char>>) -> ConfigModel {
    match config {
        ConfigModel::Gradient(g) => ConfigModel::Gradient(
            GradientModel { target_files: files, ..g },
        ),
        ConfigModel::Mapping(m) => ConfigModel::Mapping(MapModel { target_files: files, ..m }),
    }
}

/// White space at the end of a text does not count when the end is
/// trimmed.
proof fn lemma_trim_end_blank_tail(a: Seq<char>, b: Seq<char>)
    requires
        is_blank(b),
    ensures
        trim_end(a + b) == trim_end(a),
    decreases b.len(),
{
    if b.len() == 0 {
        assert(a + b =~= a);
    } else {
        assert((a + b).last() == b.last());
        assert((a + b).drop_last() =~= a + b.drop_last());
        lemma_trim_end_blank_tail(a, b.drop_last());
    }
}

/// A text is its trimmed front and a blank rest. The front does not end
/// in white space.
proof fn lemma_trim_end_splits(s: Seq<char>)
    ensures
        trim_end(s).len() <= s.len(),
        trim_end(s) == s.take(trim_end(s).len() as int),
        is_blank(s.skip(trim_end(s).len() as int)),
        trim_end(s).len() > 0 ==> !is_space(trim_end(s).last()),
        !is_blank(s) ==> trim_end(s).len() > 0,
    decreases s.len(),
{
    if s.len() > 0 && is_space(s.last()) {
        let front = s.drop_last();
        lemma_trim_end_splits(front);
        let n = trim_end(s).len() as int;
        assert(front.take(n) =~= s.take(n));
        assert forall|i: int| 0 <= i < s.skip(n).len() implies is_space(s.skip(n)[i]) by {
            if i < front.skip(n).len() {
                assert(front.skip(n)[i] == s.skip(n)[i]);
            }
        }
        if !is_blank(s) {
            let k = choose|k: int| 0 <= k < s.len() && !is_space(s[k]);
            assert(front[k] == s[k]);
        }
    } else {
        assert(s.take(s.len() as int) =~= s);
        if s.len() > 0 {
            assert(!is_space(s[s.len() - 1]));
        }
    }
}

/// The first lines of the paths are made of the first paths.
proof fn lemma_file_lines_of_front(a: Seq<Seq<char>>, b: Seq<Seq<char>>, n: nat)
    requires
        n <= a.len(),
        n <= b.len(),
        forall|i: int| 0 <= i < n ==> a[i] == b[i],
    ensures
        file_lines(a, n) == file_lines(b, n),
    decreases n,
{
    if n > 0 {
        lemma_file_lines_of_front(a, b, (n - 1) as nat);
    }
}

/// Before a text of any kind, the lines of the paths end, white space
/// aside, as the lines of the settled paths do.
proof fn lemma_settled_lines(front: Seq<char>, files: Seq<Seq<char>>)
    ensures
        trim_end(front + file_lines(files, files.len())) == trim_end(
            front + file_lines(settled(files), settled(files).len()),
        ),
    decreases files.len(),
{
    let m = files.len();
    if m > 0 {
        let k = (m - 1) as nat;
        let last = files.last();
        let rest = files.drop_last();
        let head = front + file_lines(files, k);
        lemma_file_lines_of_front(files, rest, k);
        if is_blank(last) {
            assert(is_blank(line(last)));
            assert(front + file_lines(files, m) =~= head + line(last));
            lemma_trim_end_blank_tail(head, line(last));
            lemma_settled_lines(front, rest);
        } else {
            let kept = trim_end(last);
            let out = settled(files);
            lemma_trim_end_splits(last);
            let tail = last.skip(kept.len() as int);
            assert(last =~= kept + tail);
            lemma_file_lines_of_front(files, out, k);
            assert(is_blank(tail + seq!['\n']));
            assert(is_blank(seq!['\n']));
            assert(front + file_lines(files, m) =~= (head + kept) + (tail + seq!['\n']));
            assert(front + file_lines(out, out.len()) =~= (head + kept) + seq!['\n']);
            lemma_trim_end_blank_tail(head + kept, tail + seq!['\n']);
            lemma_trim_end_blank_tail(head + kept, seq!['\n']);
        }
    }
}

/// The settled paths of plain lines are plain paths.
proof fn lemma_settled_is_plain(files: Seq<Seq<char>>)
    requires
        forall|i: int| 0 <= i < files.len() ==> is_plain_line(#[trigger] files[i]),
    ensures
        plain_paths(settled(files)),
    decreases files.len(),
{
    if files.len() > 0 {
        let last = files.last();
        let rest = files.drop_last();
        assert forall|i: int| 0 <= i < rest.len() implies is_plain_line(#[trigger] rest[i]) by {
            assert(rest[i] == files[i]);
        }
        if is_blank(last) {
            lemma_settled_is_plain(rest);
        } else {
            lemma_trim_end_splits(last);
            let kept = trim_end(last);
            let out = settled(files);
            assert(is_plain_line(last));
            assert(kept[0] == last[0]);
            assert forall|i: int| 1 <= i < kept.len() implies kept[i] != '\n' by {
                assert(kept[i] == last[i]);
            }
            assert forall|i: int| 0 <= i < out.len() implies is_plain_line(#[trigger] out[i]) by {
                if i < rest.len() {
                    assert(out[i] == files[i]);
                }
            }
        }
    }
}

/// What the first cycle of writing and parsing makes of a configuration
/// whose paths stand each on a line of its own: the same configuration
/// with its paths settled.
pub proof fn lemma_written_settles(config: ConfigModel)
    requires
        is_complete(config),
        forall|i: int|
            0 <= i < config.target_files().len() ==> is_plain_line(
                #[trigger] config.target_files()[i],
            ),
    ensures
        parsed(written(config)) == Some(with_paths(config, settled(config.target_files()))),
        plain_paths(settled(config.target_files())),
{
    let files = config.target_files();
    let after = with_paths(config, settled(files));
    lemma_settled_is_plain(files);
    lemma_written_is_read_back(after);
    let front = match config {
        ConfigModel::Gradient(g) => preamble("gradient"@, g.overwrite, hex_text(g.current_color))
            + header("colors"@) + color_lines(g.colors, g.weights, g.colors.len()) + header(
            "target_files"@,
        ),
        ConfigModel::Mapping(m) => preamble("map"@, m.overwrite, row_text(m.current_color))
            + header("colors"@) + row_lines(m.colors, m.weights, m.colors.len()) + header(
            "target_files"@,
        ),
    };
    assert(written(config) == front + file_lines(files, files.len()));
    assert(written(after) == front + file_lines(settled(files), settled(files).len()));
    lemma_settled_lines(front, files);
    assert(written(config)[0] == '[');
    assert(written(after)[0] == '[');
    assert(trim_start(written(config)) == written(config));
    assert(trim_start(written(after)) == written(after));
}

/// After the first cycle of writing and parsing nothing changes any more:
/// for a configuration whose paths stand each on a line of its own, what
/// is parsed from its text is read back from its own text, equal in every
/// field.
pub proof fn lemma_second_cycle_is_stable(config: ConfigModel)
    requires
        is_complete(config),
        forall|i: int|
            0 <= i < config.target_files().len() ==> is_plain_line(
                #[trigger] config.target_files()[i],
            ),
    ensures
        parsed(written(config)) is Some,
        parsed(written(parsed(written(config)).unwrap())) == parsed(written(config)),
{
    lemma_written_settles(config);
    lemma_written_is_read_back(with_paths(config, settled(config.target_files())));
}

/// The text ends inside the brackets of a header.
pub open spec fn ends_in_header(text: Seq<char>) -> bool {
    match scan(initial(), trimmed(text)) {
        Some(sc) => sc.phase == Phase::BraceOpen,
        None => false,
    }
}

/// All paths of the draft are plain lines, and so is what is pending
/// inside a line; outside headers and lines nothing is pending.
spec fn lines_are_plain(sc: Scanner) -> bool {
    &&& forall|i: int|
        0 <= i < sc.draft.target_files.len() ==> is_plain_line(#[trigger] sc.draft.target_files[i])
    &&& sc.phase == Phase::Text ==> is_plain_line(sc.pending)
    &&& (sc.phase == Phase::Start || sc.phase == Phase::BraceClosed || sc.phase
        == Phase::NewLine) ==> sc.pending.len() == 0
}

proof fn lemma_scan_lines_are_plain(sc: Scanner, text: Seq<char>)
    requires
        lines_are_plain(sc),
        scan(sc, text) is Some,
    ensures
        lines_are_plain(scan(sc, text).unwrap()),
    decreases text.len(),
{
    if text.len() > 0 {
        lemma_scan_lines_are_plain(sc, text.drop_last());
    }
}

/// The paths of a configuration that was read stand each on a line of its
/// own, unless the text ends inside the brackets of a header.
pub proof fn lemma_parsed_paths_are_lines(text: Seq<char>)
    requires
        parsed(text) is Some,
        !ends_in_header(text),
    ensures
        forall|i: int|
            0 <= i < parsed(text).unwrap().target_files().len() ==> is_plain_line(
                #[trigger] parsed(text).unwrap().target_files()[i],
            ),
{
    lemma_scan_lines_are_plain(initial(), trimmed(text));
}

/// Writing and parsing a configuration that was read settles its paths and
/// changes nothing else, and a second cycle changes nothing at all, for
/// every text that does not end inside the brackets of a header.
pub proof fn lemma_cycles_settle(text: Seq<char>)
    requires
        parsed(text) is Some,
        !ends_in_header(text),
    ensures
        ({
            let config = parsed(text).unwrap();
            let first = with_paths(config, settled(config.target_files()));
            &&& parsed(written(config)) == Some(first)
            &&& parsed(written(first)) == Some(first)
        }),
{
    let config = parsed(text).unwrap();
    lemma_parsed_is_complete(text);
    lemma_parsed_paths_are_lines(text);
    lemma_written_settles(config);
    lemma_written_is_read_back(with_paths(config, settled(config.target_files())));
}

} // verus!
