//! The session snapshot codec: a structured text form of the session's
//! persistent fields, written and read by the library itself, with a
//! proved round trip.
//!
//! Numbers are decimal; text is length-prefixed (`<len>:<chars>`), so
//! any characters round-trip without escaping; composites use braces,
//! brackets and fixed keys.

use vstd::prelude::*;
use vstd::string::StringExecFns;
use crate::app::{App, FloatInput};
use crate::csvfile::CSVFile;
use crate::file_entry::{FileEntry, FileEntryState};
use crate::folder::Folder;
use crate::plot::{Color, PlotDimensions};
use crate::text::{dec_digits, dec_value, digit_val, is_digit, is_numeric_text,
    lemma_dec_digits_are_digits, lemma_dec_value_of_digits, u64_to_string};

verus! {

/// End of the run of digit characters starting at `i`.
pub open spec fn digit_run_end(s: Seq<char>, i: int) -> int
    decreases s.len() - i,
{
    if 0 <= i < s.len() && is_digit(s[i]) {
        digit_run_end(s, i + 1)
    } else {
        i
    }
}

pub proof fn lemma_digit_run_end(s: Seq<char>, i: int, k: int)
    requires
        0 <= i <= k <= s.len(),
        forall|t: int| i <= t < k ==> is_digit(#[trigger] s[t]),
        k == s.len() || !is_digit(s[k]),
    ensures
        digit_run_end(s, i) == k,
    decreases k - i,
{
    if i < k {
        lemma_digit_run_end(s, i + 1, k);
    }
}

pub proof fn lemma_digit_run_bounds(s: Seq<char>, i: int)
    requires
        0 <= i <= s.len(),
    ensures
        i <= digit_run_end(s, i) <= s.len(),
        forall|t: int| i <= t < digit_run_end(s, i) ==> is_digit(#[trigger] s[t]),
        digit_run_end(s, i) == s.len() || !is_digit(s[digit_run_end(s, i)]),
    decreases s.len() - i,
{
    if 0 <= i < s.len() && is_digit(s[i]) {
        lemma_digit_run_bounds(s, i + 1);
    }
}

/// The number written in decimal at `i`, and the position after it.
/// There is none where no digit stands at `i` or the run's value
/// overflows the word.
pub open spec fn p_u64(s: Seq<char>, i: int) -> Option<(u64, int)> {
    let j = digit_run_end(s, i);
    if 0 <= i && i < j && dec_value(s.subrange(i, j)) <= u64::MAX {
        Some((dec_value(s.subrange(i, j)) as u64, j))
    } else {
        None
    }
}

/// A longer run of digits has at least the value of a prefix.
pub proof fn lemma_dec_value_prefix(s: Seq<char>, t: Seq<char>)
    requires
        forall|k: int| 0 <= k < t.len() ==> is_digit(#[trigger] t[k]),
    ensures
        dec_value(s) <= dec_value(s + t),
    decreases t.len(),
{
    if t.len() == 0 {
        assert(s + t =~= s);
    } else {
        lemma_dec_value_prefix(s, t.drop_last());
        assert((s + t).drop_last() =~= s + t.drop_last());
        assert((s + t).last() == t.last());
        assert(dec_value(s + t) == dec_value(s + t.drop_last()) * 10 + digit_val(t.last()));
    }
}

/// A number is read back from where it was written, wherever what
/// follows does not begin with a digit.
pub proof fn lemma_p_u64(s: Seq<char>, i: int, n: u64, rest: Seq<char>)
    requires
        0 <= i <= s.len(),
        s.skip(i) == dec_digits(n as nat) + rest,
        rest.len() == 0 || !is_digit(rest[0]),
    ensures
        p_u64(s, i) == Some((n, i + dec_digits(n as nat).len())),
{
    let d = dec_digits(n as nat);
    lemma_dec_digits_are_digits(n as nat);
    assert(s.skip(i).len() == s.len() - i);
    let k = i + d.len();
    assert forall|t: int| i <= t < k implies is_digit(#[trigger] s[t]) by {
        assert(s[t] == s.skip(i)[t - i]);
        assert(s.skip(i)[t - i] == d[t - i]);
    }
    assert(k == s.len() || !is_digit(s[k])) by {
        if k < s.len() {
            assert(s[k] == s.skip(i)[k - i]);
            assert(s.skip(i)[k - i] == rest[0]);
        }
    }
    lemma_digit_run_end(s, i, k);
    assert(s.subrange(i, k) =~= d);
    lemma_dec_value_of_digits(n as nat);
}

/// Length-prefixed text: the length in decimal, a colon, the
/// characters.
pub open spec fn enc_str(t: Seq<char>) -> Seq<char> {
    dec_digits(t.len()) + seq![':'] + t
}

/// The text written at `i`, and the position after it.
pub open spec fn p_str(s: Seq<char>, i: int) -> Option<(Seq<char>, int)> {
    match p_u64(s, i) {
        Some((n, j)) => {
            if j < s.len() && s[j] == ':' && j + 1 + n <= s.len() {
                Some((s.subrange(j + 1, j + 1 + n), j + 1 + n))
            } else {
                None
            }
        },
        None => None,
    }
}

/// Text is read back from where it was written.
pub proof fn lemma_p_str(s: Seq<char>, i: int, t: Seq<char>, rest: Seq<char>)
    requires
        0 <= i <= s.len(),
        t.len() <= u64::MAX,
        s.skip(i) == enc_str(t) + rest,
    ensures
        p_str(s, i) == Some((t, i + enc_str(t).len())),
{
    let d = dec_digits(t.len());
    assert(s.skip(i).len() == s.len() - i);
    assert(s.skip(i) =~= d + (seq![':'] + t + rest));
    assert((seq![':'] + t + rest)[0] == ':');
    assert(!is_digit(':')) by {
        assert(':' as int == 58);
    }
    lemma_p_u64(s, i, t.len() as u64, seq![':'] + t + rest);
    let j = i + d.len();
    assert(s[j] == s.skip(i)[j - i]);
    assert(s.skip(i)[j - i] == ':');
    assert(s.subrange(j + 1, j + 1 + t.len()) =~= t) by {
        assert forall|k: int| 0 <= k < t.len() implies s.subrange(j + 1, j + 1 + t.len())[k]
            == t[k] by {
            assert(s.subrange(j + 1, j + 1 + t.len())[k] == s[j + 1 + k]);
            assert(s[j + 1 + k] == s.skip(i)[j + 1 + k - i]);
        }
    }
}

/// A single tag character for a truth value.
pub open spec fn enc_bool(b: bool) -> Seq<char> {
    if b {
        seq!['t']
    } else {
        seq!['f']
    }
}

/// The truth value tagged at `i`, and the position after it.
pub open spec fn p_bool(s: Seq<char>, i: int) -> Option<(bool, int)> {
    if 0 <= i < s.len() && s[i] == 't' {
        Some((true, i + 1))
    } else if 0 <= i < s.len() && s[i] == 'f' {
        Some((false, i + 1))
    } else {
        None
    }
}

/// A truth value is read back from where it was written.
pub proof fn lemma_p_bool(s: Seq<char>, i: int, b: bool, rest: Seq<char>)
    requires
        0 <= i <= s.len(),
        s.skip(i) == enc_bool(b) + rest,
    ensures
        p_bool(s, i) == Some((b, i + 1)),
{
    assert(s.skip(i).len() == s.len() - i);
    assert(s[i] == s.skip(i)[0]);
}

/// The persistent image of one series.
pub struct CsvM {
    pub path: Seq<char>,
    pub points: Seq<(Seq<char>, Seq<char>)>,
    pub delimiter: u8,
    pub comment_char: u8,
    pub xcol: usize,
    pub ycol: usize,
    pub skip_header: usize,
    pub skip_footer: usize,
}

/// The persistent image of one file entry.
pub struct EntryM {
    pub filename: Seq<char>,
    pub data_file: CsvM,
    pub scale: Seq<char>,
    pub offset: Seq<char>,
    pub xoffset: Seq<char>,
    pub color: Color,
    pub state: FileEntryState,
    pub id: usize,
    pub preview: Seq<char>,
}

/// The persistent image of one folder.
pub struct FolderM {
    pub path: Seq<char>,
    pub files: Seq<EntryM>,
    pub expanded: bool,
    pub to_be_deleted: bool,
}

/// The persistent image of a session: everything a snapshot holds. The
/// transient fields (error log, acceleration, copied options, color
/// counter) have no image and reset on load.
pub struct SessionM {
    pub folders: Seq<FolderM>,
    pub search_phrase: Seq<char>,
    pub plot_dims: PlotDimensions,
}

/// The image of a series value.
pub open spec fn csv_model(c: CSVFile) -> CsvM {
    CsvM {
        path: c.filepath@,
        points: c.data.deep_view(),
        delimiter: c.delimiter,
        comment_char: c.comment_char,
        xcol: c.xcol,
        ycol: c.ycol,
        skip_header: c.skip_header,
        skip_footer: c.skip_footer,
    }
}

/// The image of a file entry.
pub open spec fn entry_model(e: FileEntry) -> EntryM {
    EntryM {
        filename: e.filename@,
        data_file: csv_model(e.data_file),
        scale: e.scale.input@,
        offset: e.offset.input@,
        xoffset: e.xoffset.input@,
        color: e.color,
        state: e.state,
        id: e.id,
        preview: e.preview@,
    }
}

/// The image of a folder.
pub open spec fn folder_model(f: Folder) -> FolderM {
    FolderM {
        path: f.path@,
        files: f.files@.map_values(|e: FileEntry| entry_model(e)),
        expanded: f.expanded,
        to_be_deleted: f.to_be_deleted,
    }
}

/// The image of a session's persistent fields.
pub open spec fn session_model(a: App) -> SessionM {
    SessionM {
        folders: a.folders@.map_values(|f: Folder| folder_model(f)),
        search_phrase: a.search_phrase@,
        plot_dims: a.plot_dims,
    }
}

/// Texts short enough for their length prefix.
pub open spec fn str_ok(t: Seq<char>) -> bool {
    t.len() <= u64::MAX
}

/// A series image the codec round-trips: texts in bounds, every point
/// numeric.
pub open spec fn csv_m_wf(c: CsvM) -> bool {
    &&& str_ok(c.path)
    &&& forall|i: int|
        0 <= i < c.points.len() ==> str_ok((#[trigger] c.points[i]).0) && str_ok(c.points[i].1)
            && is_numeric_text(c.points[i].0) && is_numeric_text(c.points[i].1)
}

/// An entry image the codec round-trips.
pub open spec fn entry_m_wf(e: EntryM) -> bool {
    &&& str_ok(e.filename)
    &&& csv_m_wf(e.data_file)
    &&& str_ok(e.scale)
    &&& str_ok(e.offset)
    &&& str_ok(e.xoffset)
    &&& str_ok(e.preview)
}

/// A folder image the codec round-trips.
pub open spec fn folder_m_wf(f: FolderM) -> bool {
    &&& str_ok(f.path)
    &&& forall|i: int| 0 <= i < f.files.len() ==> entry_m_wf(#[trigger] f.files[i])
}

/// A session image the codec round-trips.
pub open spec fn session_m_wf(m: SessionM) -> bool {
    &&& str_ok(m.search_phrase)
    &&& forall|i: int| 0 <= i < m.folders.len() ==> folder_m_wf(#[trigger] m.folders[i])
}

/// The items of a list from position `k` on, each encoded by `f`,
/// closed by the list terminator.
pub open spec fn enc_list_from<T>(items: Seq<T>, k: int, f: spec_fn(T) -> Seq<char>) -> Seq<char>
    decreases items.len() - k,
{
    if 0 <= k < items.len() {
        f(items[k]) + enc_list_from(items, k + 1, f)
    } else {
        seq![']']
    }
}

/// A whole encoded list.
pub open spec fn enc_list<T>(items: Seq<T>, f: spec_fn(T) -> Seq<char>) -> Seq<char> {
    seq!['['] + enc_list_from(items, 0, f)
}

/// The first `k` items of a list, encoded and concatenated.
pub open spec fn enc_list_prefix<T>(items: Seq<T>, k: int, f: spec_fn(T) -> Seq<char>) -> Seq<
    char,
>
    decreases k,
{
    if k <= 0 {
        Seq::empty()
    } else {
        enc_list_prefix(items, k - 1, f) + f(items[k - 1])
    }
}

/// An encoded list splits at any position into its encoded prefix and
/// its encoded tail.
pub proof fn lemma_enc_list_split<T>(items: Seq<T>, k: int, f: spec_fn(T) -> Seq<char>)
    requires
        0 <= k <= items.len(),
    ensures
        enc_list_from(items, 0, f) == enc_list_prefix(items, k, f) + enc_list_from(items, k, f),
    decreases k,
{
    if k == 0 {
        assert(Seq::empty() + enc_list_from(items, 0, f) =~= enc_list_from(items, 0, f));
    } else {
        lemma_enc_list_split(items, k - 1, f);
        assert(enc_list_from(items, k - 1, f) == f(items[k - 1]) + enc_list_from(items, k, f));
        assert(enc_list_prefix(items, k - 1, f) + (f(items[k - 1]) + enc_list_from(items, k, f))
            =~= (enc_list_prefix(items, k - 1, f) + f(items[k - 1])) + enc_list_from(items, k, f));
    }
}

/// Concatenation regroups freely.
pub proof fn lemma_concat_assoc(a: Seq<char>, b: Seq<char>, c: Seq<char>)
    ensures
        (a + b) + c == a + (b + c),
{
    assert((a + b) + c =~= a + (b + c));
}

/// One encoded point: the two texts, a separator after each.
pub open spec fn enc_point(p: (Seq<char>, Seq<char>)) -> Seq<char> {
    enc_str(p.0) + seq![','] + enc_str(p.1) + seq![';']
}

/// The point encoder, named so every use is one term.
pub open spec fn point_encoder() -> spec_fn((Seq<char>, Seq<char>)) -> Seq<char> {
    |p: (Seq<char>, Seq<char>)| enc_point(p)
}

/// The entry encoder, named so every use is one term.
pub open spec fn entry_encoder() -> spec_fn(EntryM) -> Seq<char> {
    |e: EntryM| enc_entry(e)
}

/// The folder encoder, named so every use is one term.
pub open spec fn folder_encoder() -> spec_fn(FolderM) -> Seq<char> {
    |f: FolderM| enc_folder(f)
}

/// One encoded color: the four channels.
pub open spec fn enc_color(c: Color) -> Seq<char> {
    dec_digits(c.r as nat) + seq![','] + dec_digits(c.g as nat) + seq![','] + dec_digits(
        c.b as nat,
    ) + seq![','] + dec_digits(c.a as nat)
}

/// One encoded state tag.
pub open spec fn enc_state(st: FileEntryState) -> Seq<char> {
    match st {
        FileEntryState::Idle => seq!['I'],
        FileEntryState::Plotted => seq!['P'],
        FileEntryState::PreviouslyPlotted => seq!['V'],
        FileEntryState::Active => seq!['A'],
        FileEntryState::NeedsConfig => seq!['N'],
    }
}

/// One encoded series: path, points, then the six parameters.
pub open spec fn enc_csv(c: CsvM) -> Seq<char> {
    seq!['{'] + enc_str(c.path) + seq![','] + enc_list(c.points, point_encoder()) + seq![',']
        + dec_digits(c.delimiter as nat) + seq![','] + dec_digits(
        c.comment_char as nat,
    ) + seq![','] + dec_digits(c.xcol as nat) + seq![','] + dec_digits(c.ycol as nat) + seq![',']
        + dec_digits(c.skip_header as nat) + seq![','] + dec_digits(c.skip_footer as nat)
        + seq!['}']
}

/// One encoded entry: name, series, the three transform texts, color,
/// state, id, preview.
pub open spec fn enc_entry(e: EntryM) -> Seq<char> {
    seq!['{'] + enc_str(e.filename) + seq![','] + enc_csv(e.data_file) + seq![','] + enc_str(
        e.scale,
    ) + seq![','] + enc_str(e.offset) + seq![','] + enc_str(e.xoffset) + seq![','] + enc_color(
        e.color,
    ) + seq![','] + enc_state(e.state) + seq![','] + dec_digits(e.id as nat) + seq![','] + enc_str(
        e.preview,
    ) + seq!['}']
}

/// One encoded folder: path, entries, the two flags.
pub open spec fn enc_folder(f: FolderM) -> Seq<char> {
    seq!['{'] + enc_str(f.path) + seq![','] + enc_list(f.files, entry_encoder()) + seq![',']
        + enc_bool(f.expanded) + seq![','] + enc_bool(f.to_be_deleted) + seq!['}']
}

/// One encoded session: folders, search phrase, the four viewport
/// bounds.
pub open spec fn enc_session(m: SessionM) -> Seq<char> {
    seq!['{'] + enc_list(m.folders, folder_encoder()) + seq![','] + enc_str(
        m.search_phrase,
    ) + seq![','] + dec_digits(m.plot_dims.x0 as nat) + seq![','] + dec_digits(
        m.plot_dims.x1 as nat,
    ) + seq![','] + dec_digits(m.plot_dims.y0 as nat) + seq![','] + dec_digits(
        m.plot_dims.y1 as nat,
    ) + seq!['}']
}

/// Appends one character.
fn w_char(out: &mut String, c: char)
    ensures
        final(out)@ == old(out)@ + seq![c],
{
    out.push(c);
    proof {
        assert(old(out)@.push(c) =~= old(out)@ + seq![c]);
    }
}

/// Appends one decimal number.
fn w_u64(out: &mut String, n: u64)
    ensures
        final(out)@ == old(out)@ + dec_digits(n as nat),
{
    let num = u64_to_string(n);
    out.append(num.as_str());
}

/// Appends one length-prefixed text.
fn w_str_field(out: &mut String, t: &str)
    ensures
        final(out)@ == old(out)@ + enc_str(t@),
        str_ok(t@),
{
    let n = t.unicode_len();
    w_u64(out, n as u64);
    w_char(out, ':');
    out.append(t);
    proof {
        assert(old(out)@ + dec_digits(t@.len()) + seq![':'] + t@ =~= old(out)@ + (dec_digits(
            t@.len(),
        ) + seq![':'] + t@));
    }
}

/// Appends one encoded color.
fn w_color(out: &mut String, c: &Color)
    ensures
        final(out)@ == old(out)@ + enc_color(*c),
{
    w_u64(out, c.r as u64);
    w_char(out, ',');
    w_u64(out, c.g as u64);
    w_char(out, ',');
    w_u64(out, c.b as u64);
    w_char(out, ',');
    w_u64(out, c.a as u64);
    proof {
        assert(old(out)@ + dec_digits(c.r as nat) + seq![','] + dec_digits(c.g as nat) + seq![',']
            + dec_digits(c.b as nat) + seq![','] + dec_digits(c.a as nat) =~= old(out)@ + enc_color(
            *c,
        ));
    }
}

/// Appends one state tag.
fn w_state(out: &mut String, st: FileEntryState)
    ensures
        final(out)@ == old(out)@ + enc_state(st),
{
    match st {
        FileEntryState::Idle => w_char(out, 'I'),
        FileEntryState::Plotted => w_char(out, 'P'),
        FileEntryState::PreviouslyPlotted => w_char(out, 'V'),
        FileEntryState::Active => w_char(out, 'A'),
        FileEntryState::NeedsConfig => w_char(out, 'N'),
    }
}

/// Appends one encoded point list.
fn w_points(out: &mut String, data: &Vec<(String, String)>)
    ensures
        final(out)@ == old(out)@ + enc_list(data.deep_view(), point_encoder()),
        forall|i: int|
            0 <= i < data.deep_view().len() ==> str_ok((#[trigger] data.deep_view()[i]).0)
                && str_ok(data.deep_view()[i].1),
{
    let ghost f = point_encoder();
    let ghost dv = data.deep_view();
    let ghost start = out@;
    w_char(out, '[');
    let n = data.len();
    let mut i: usize = 0;
    proof {
        assert(dv.len() == data@.len());
    }
    while i < n
        invariant
            n == data@.len(),
            dv == data.deep_view(),
            dv.len() == n,
            f == point_encoder(),
            i <= n,
            out@ == start + seq!['['] + enc_list_prefix(dv, i as int, f),
            forall|k: int| 0 <= k < i ==> str_ok((#[trigger] dv[k]).0) && str_ok(dv[k].1),
        decreases n - i,
    {
        let p = &data[i];
        proof {
            assert(dv[i as int] == (data@[i as int].0@, data@[i as int].1@));
        }
        w_str_field(out, p.0.as_str());
        w_char(out, ',');
        w_str_field(out, p.1.as_str());
        w_char(out, ';');
        proof {
            assert(out@ =~= start + seq!['['] + (enc_list_prefix(dv, i as int, f) + enc_point(
                dv[i as int],
            )));
            assert(enc_list_prefix(dv, i + 1, f) == enc_list_prefix(dv, i as int, f) + f(
                dv[i as int],
            ));
        }
        i = i + 1;
    }
    proof {
        lemma_enc_list_split(dv, dv.len() as int, f);
        assert(enc_list_from(dv, dv.len() as int, f) == seq![']']);
    }
    w_char(out, ']');
    proof {
        assert(out@ =~= start + seq!['['] + (enc_list_prefix(dv, dv.len() as int, f)
            + enc_list_from(dv, dv.len() as int, f)));
        assert(out@ =~= start + enc_list(dv, f));
    }
}

/// Appends one encoded series.
#[verifier::rlimit(50)]
fn w_csv(out: &mut String, c: &CSVFile)
    requires
        c.wf(),
    ensures
        final(out)@ == old(out)@ + enc_csv(csv_model(*c)),
        csv_m_wf(csv_model(*c)),
{
    let ghost start = out@;
    w_char(out, '{');
    w_str_field(out, c.filepath.as_str());
    w_char(out, ',');
    w_points(out, &c.data);
    w_char(out, ',');
    w_u64(out, c.delimiter as u64);
    w_char(out, ',');
    w_u64(out, c.comment_char as u64);
    w_char(out, ',');
    w_u64(out, c.xcol as u64);
    w_char(out, ',');
    w_u64(out, c.ycol as u64);
    w_char(out, ',');
    w_u64(out, c.skip_header as u64);
    w_char(out, ',');
    w_u64(out, c.skip_footer as u64);
    w_char(out, '}');
    proof {
        assert(out@ =~= start + enc_csv(csv_model(*c)));
    }
}

/// Appends one encoded entry.
#[verifier::rlimit(50)]
fn w_entry(out: &mut String, e: &FileEntry)
    requires
        e.wf(),
    ensures
        final(out)@ == old(out)@ + enc_entry(entry_model(*e)),
        entry_m_wf(entry_model(*e)),
{
    let ghost start = out@;
    let ghost em = entry_model(*e);
    let ghost mut acc: Seq<char> = Seq::empty();
    w_char(out, '{');
    proof {
        assert(Seq::<char>::empty() + seq!['{'] =~= seq!['{']);
        acc = seq!['{'];
    }
    w_str_field(out, e.filename.as_str());
    proof {
        lemma_concat_assoc(start, acc, enc_str(em.filename));
        acc = acc + enc_str(em.filename);
    }
    w_char(out, ',');
    proof {
        lemma_concat_assoc(start, acc, seq![',']);
        acc = acc + seq![','];
    }
    w_csv(out, &e.data_file);
    proof {
        lemma_concat_assoc(start, acc, enc_csv(em.data_file));
        acc = acc + enc_csv(em.data_file);
    }
    w_char(out, ',');
    proof {
        lemma_concat_assoc(start, acc, seq![',']);
        acc = acc + seq![','];
    }
    w_str_field(out, e.scale.input.as_str());
    proof {
        lemma_concat_assoc(start, acc, enc_str(em.scale));
        acc = acc + enc_str(em.scale);
    }
    w_char(out, ',');
    proof {
        lemma_concat_assoc(start, acc, seq![',']);
        acc = acc + seq![','];
    }
    w_str_field(out, e.offset.input.as_str());
    proof {
        lemma_concat_assoc(start, acc, enc_str(em.offset));
        acc = acc + enc_str(em.offset);
    }
    w_char(out, ',');
    proof {
        lemma_concat_assoc(start, acc, seq![',']);
        acc = acc + seq![','];
    }
    w_str_field(out, e.xoffset.input.as_str());
    proof {
        lemma_concat_assoc(start, acc, enc_str(em.xoffset));
        acc = acc + enc_str(em.xoffset);
    }
    w_char(out, ',');
    proof {
        lemma_concat_assoc(start, acc, seq![',']);
        acc = acc + seq![','];
    }
    w_color(out, &e.color);
    proof {
        lemma_concat_assoc(start, acc, enc_color(em.color));
        acc = acc + enc_color(em.color);
    }
    w_char(out, ',');
    proof {
        lemma_concat_assoc(start, acc, seq![',']);
        acc = acc + seq![','];
    }
    w_state(out, e.state);
    proof {
        lemma_concat_assoc(start, acc, enc_state(em.state));
        acc = acc + enc_state(em.state);
    }
    w_char(out, ',');
    proof {
        lemma_concat_assoc(start, acc, seq![',']);
        acc = acc + seq![','];
    }
    w_u64(out, e.id as u64);
    proof {
        lemma_concat_assoc(start, acc, dec_digits(em.id as nat));
        acc = acc + dec_digits(em.id as nat);
    }
    w_char(out, ',');
    proof {
        lemma_concat_assoc(start, acc, seq![',']);
        acc = acc + seq![','];
    }
    w_str_field(out, e.preview.as_str());
    proof {
        lemma_concat_assoc(start, acc, enc_str(em.preview));
        acc = acc + enc_str(em.preview);
    }
    w_char(out, '}');
    proof {
        lemma_concat_assoc(start, acc, seq!['}']);
        acc = acc + seq!['}'];
        assert(out@ == start + acc);
        assert(acc == enc_entry(em));
    }
}

/// Appends one encoded folder.
#[verifier::rlimit(50)]
fn w_folder(out: &mut String, fo: &Folder)
    requires
        fo.wf(),
    ensures
        final(out)@ == old(out)@ + enc_folder(folder_model(*fo)),
        folder_m_wf(folder_model(*fo)),
{
    let ghost f = entry_encoder();
    let ghost fm = folder_model(*fo);
    let ghost start = out@;
    let ghost mut acc: Seq<char> = Seq::empty();
    w_char(out, '{');
    proof {
        assert(Seq::<char>::empty() + seq!['{'] =~= seq!['{']);
        acc = seq!['{'];
    }
    w_str_field(out, fo.path.as_str());
    proof {
        lemma_concat_assoc(start, acc, enc_str(fm.path));
        acc = acc + enc_str(fm.path);
    }
    w_char(out, ',');
    proof {
        lemma_concat_assoc(start, acc, seq![',']);
        acc = acc + seq![','];
    }
    w_char(out, '[');
    proof {
        lemma_concat_assoc(start, acc, seq!['[']);
        acc = acc + seq!['['];
    }
    let ghost mid = out@;
    let ghost acc_mid = acc;
    let n = fo.files.len();
    let mut i: usize = 0;
    proof {
        assert(fm.files.len() == n);
        assert(enc_list_prefix(fm.files, 0, f) =~= Seq::<char>::empty());
        assert(mid + Seq::<char>::empty() =~= mid);
    }
    while i < n
        invariant
            n == fo.files@.len(),
            fo.wf(),
            fm == folder_model(*fo),
            fm.files.len() == n,
            f == entry_encoder(),
            i <= n,
            mid == start + acc_mid,
            out@ == mid + enc_list_prefix(fm.files, i as int, f),
            forall|k: int| 0 <= k < i ==> entry_m_wf(#[trigger] fm.files[k]),
        decreases n - i,
    {
        proof {
            assert(fo.files@[i as int].wf());
            assert(fm.files[i as int] == entry_model(fo.files@[i as int]));
        }
        w_entry(out, &fo.files[i]);
        proof {
            lemma_concat_assoc(mid, enc_list_prefix(fm.files, i as int, f), f(fm.files[i as int]));
        }
        i = i + 1;
    }
    proof {
        lemma_enc_list_split(fm.files, fm.files.len() as int, f);
        assert(enc_list_from(fm.files, fm.files.len() as int, f) == seq![']']);
    }
    w_char(out, ']');
    proof {
        assert(out@ == (mid + enc_list_prefix(fm.files, fm.files.len() as int, f)) + seq![']']);
        lemma_concat_assoc(mid, enc_list_prefix(fm.files, fm.files.len() as int, f), seq![']']);
        assert(out@ == mid + enc_list_from(fm.files, 0, f));
        lemma_concat_assoc(start, acc_mid, enc_list_from(fm.files, 0, f));
        acc = acc_mid + enc_list_from(fm.files, 0, f);
        assert(out@ == start + acc);
    }
    w_char(out, ',');
    proof {
        lemma_concat_assoc(start, acc, seq![',']);
        acc = acc + seq![','];
    }
    let expanded = fo.expanded;
    w_char(
        out,
        if expanded {
            't'
        } else {
            'f'
        },
    );
    proof {
        lemma_concat_assoc(start, acc, enc_bool(fm.expanded));
        acc = acc + enc_bool(fm.expanded);
    }
    w_char(out, ',');
    proof {
        lemma_concat_assoc(start, acc, seq![',']);
        acc = acc + seq![','];
    }
    let deleted = fo.to_be_deleted;
    w_char(
        out,
        if deleted {
            't'
        } else {
            'f'
        },
    );
    proof {
        lemma_concat_assoc(start, acc, enc_bool(fm.to_be_deleted));
        acc = acc + enc_bool(fm.to_be_deleted);
    }
    w_char(out, '}');
    proof {
        lemma_concat_assoc(start, acc, seq!['}']);
        acc = acc + seq!['}'];
        assert(out@ == start + acc);
        assert(acc_mid + enc_list_from(fm.files, 0, f) == seq!['{'] + enc_str(fm.path) + seq![',']
            + enc_list(fm.files, f)) by {
            lemma_concat_assoc(
                seq!['{'] + enc_str(fm.path) + seq![','],
                seq!['['],
                enc_list_from(fm.files, 0, f),
            );
        }
        assert(acc == enc_folder(fm));
    }
}

/// Consuming a leading chunk of the tail at `i` lands at its end.
pub proof fn lemma_skip_concat(s: Seq<char>, i: int, a: Seq<char>, b: Seq<char>)
    requires
        0 <= i <= s.len(),
        s.skip(i) == a + b,
    ensures
        i + a.len() <= s.len(),
        s.skip(i + a.len()) == b,
        forall|k: int| 0 <= k < a.len() ==> s[i + k] == a[k],
{
    assert(s.skip(i).len() == s.len() - i);
    assert forall|k: int| 0 <= k < a.len() implies s[i + k] == a[k] by {
        assert(s.skip(i)[k] == s[i + k]);
    }
    assert forall|k: int| 0 <= k < b.len() implies s.skip(i + a.len())[k] == b[k] by {
        assert(s.skip(i + a.len())[k] == s[i + a.len() + k]);
        assert(s.skip(i)[a.len() + k] == s[i + a.len() + k]);
    }
    assert(s.skip(i + a.len()) =~= b);
}

/// An encoded tail of a list is the encoding of the remaining items.
pub proof fn lemma_enc_list_shift<T>(items: Seq<T>, k: int, f: spec_fn(T) -> Seq<char>)
    requires
        0 <= k <= items.len(),
    ensures
        enc_list_from(items, k, f) == enc_list_from(items.skip(k), 0, f),
    decreases items.len() - k,
{
    if k == items.len() {
        assert(items.skip(k).len() == 0);
    } else {
        lemma_enc_list_shift(items, k + 1, f);
        let tail = items.skip(k);
        assert(tail[0] == items[k]);
        assert(enc_list_from(tail, 0, f) == f(tail[0]) + enc_list_from(tail, 1, f));
        lemma_enc_list_shift(tail, 1, f);
        assert(tail.skip(1) =~= items.skip(k + 1));
    }
}

/// The first character of a decimal numeral is a digit.
pub proof fn lemma_dec_digits_head(n: nat)
    ensures
        dec_digits(n).len() >= 1,
        is_digit(dec_digits(n)[0]),
{
    lemma_dec_digits_are_digits(n);
}

/// Reads one expected character.
fn r_char(v: &Vec<char>, i: usize, c: char) -> (r: Option<usize>)
    ensures
        r matches Some(j) ==> j == i + 1 && i < v@.len() && v@[i as int] == c,
        i < v@.len() && v@[i as int] == c ==> r is Some,
{
    if i < v.len() && v[i] == c {
        Some(i + 1)
    } else {
        None
    }
}

/// Reads one decimal number.
fn r_u64(v: &Vec<char>, i: usize) -> (r: Option<(u64, usize)>)
    ensures
        match p_u64(v@, i as int) {
            Some((n, j)) => r matches Some(p) && p.0 == n && p.1 == j,
            None => r is None,
        },
        r matches Some(p) ==> i < p.1 <= v@.len(),
    decreases v@.len() - i,
{
    if i >= v.len() {
        proof {
            assert(digit_run_end(v@, i as int) == i as int);
        }
        return None;
    }
    proof {
        lemma_digit_run_bounds(v@, i as int);
    }
    let c = v[i];
    let digit = c >= '0' && c <= '9';
    proof {
        assert('0' as int == 48 && '9' as int == 57);
        assert(digit == is_digit(c));
    }
    if !digit {
        return None;
    }
    let mut acc: u64 = (c as u32 - 48) as u64;
    let mut k: usize = i + 1;
    proof {
        assert(v@.subrange(i as int, i + 1) =~= seq![c]);
        assert(v@.subrange(i as int, i + 1).drop_last() =~= Seq::<char>::empty());
        assert(dec_value(Seq::<char>::empty()) == 0);
        assert(v@.subrange(i as int, i + 1).last() == c);
        assert(dec_value(v@.subrange(i as int, i + 1)) == digit_val(c));
        assert(acc == digit_val(c));
    }
    while k < v.len() && v[k] >= '0' && v[k] <= '9'
        invariant
            i < k <= v@.len(),
            v@.len() <= usize::MAX,
            forall|t: int| i <= t < k ==> is_digit(#[trigger] v@[t]),
            acc == dec_value(v@.subrange(i as int, k as int)),
            dec_value(v@.subrange(i as int, k as int)) <= u64::MAX,
        decreases v@.len() - k,
    {
        let c2 = v[k];
        proof {
            assert('0' as int == 48 && '9' as int == 57);
            assert(is_digit(c2));
            assert(v@.subrange(i as int, k + 1).drop_last() =~= v@.subrange(i as int, k as int));
            assert(v@.subrange(i as int, k + 1).last() == c2);
        }
        let d = (c2 as u32 - 48) as u64;
        if acc > (u64::MAX - d) / 10 {
            proof {
                let run = digit_run_end(v@, i as int);
                assert(dec_value(v@.subrange(i as int, k + 1)) == acc * 10 + d);
                assert(acc * 10 + d > u64::MAX) by (nonlinear_arith)
                    requires
                        acc > (u64::MAX - d) / 10,
                        d <= 9,
                ;
                lemma_digit_run_end_ge(v@, i as int, k + 1);
                assert(v@.subrange(i as int, run) =~= v@.subrange(i as int, k + 1) + v@.subrange(
                    k + 1,
                    run,
                ));
                assert(forall|t: int| k + 1 <= t < run ==> is_digit(#[trigger] v@[t]));
                assert forall|t: int|
                    0 <= t < v@.subrange(k + 1, run).len() implies is_digit(
                    #[trigger] v@.subrange(k + 1, run)[t],
                ) by {
                    assert(v@.subrange(k + 1, run)[t] == v@[k + 1 + t]);
                }
                lemma_dec_value_prefix(v@.subrange(i as int, k + 1), v@.subrange(k + 1, run));
                assert(dec_value(v@.subrange(i as int, run)) > u64::MAX);
            }
            return None;
        }
        proof {
            assert(acc * 10 + d <= u64::MAX) by (nonlinear_arith)
                requires
                    acc <= (u64::MAX - d) / 10,
                    d <= 9,
            ;
        }
        acc = acc * 10 + d;
        proof {
            assert(acc == dec_value(v@.subrange(i as int, k + 1)));
        }
        k = k + 1;
    }
    proof {
        assert(k == v@.len() || !is_digit(v@[k as int]));
        lemma_digit_run_end(v@, i as int, k as int);
    }
    Some((acc, k))
}

/// A digit run reaches past any all-digit stretch from its start.
pub proof fn lemma_digit_run_end_ge(s: Seq<char>, i: int, k: int)
    requires
        0 <= i <= k <= s.len(),
        forall|t: int| i <= t < k ==> is_digit(#[trigger] s[t]),
    ensures
        digit_run_end(s, i) >= k,
        forall|t: int| i <= t < digit_run_end(s, i) ==> is_digit(#[trigger] s[t]),
        digit_run_end(s, i) <= s.len(),
    decreases k - i,
{
    lemma_digit_run_bounds(s, i);
    if i < k {
        lemma_digit_run_end_ge(s, i + 1, k);
    }
}

/// Reads one length-prefixed text.
fn r_str(v: &Vec<char>, i: usize) -> (r: Option<(String, usize)>)
    ensures
        match p_str(v@, i as int) {
            Some((t, j)) => r matches Some(p) && p.0@ == t && p.1 == j,
            None => r is None,
        },
        r matches Some(p) ==> i < p.1 <= v@.len(),
{
    let (n, j) = match r_u64(v, i) {
        Some(p) => p,
        None => {
            return None;
        },
    };
    if j >= v.len() || v[j] != ':' {
        return None;
    }
    let remaining = v.len() - (j + 1);
    if n > remaining as u64 {
        return None;
    }
    let count = n as usize;
    let mut out = String::new();
    let mut k: usize = 0;
    while k < count
        invariant
            v@.len() <= usize::MAX,
            j + 1 + count <= v@.len(),
            k <= count,
            out@ == v@.subrange(j + 1, j + 1 + k),
        decreases count - k,
    {
        out.push(v[j + 1 + k]);
        proof {
            assert(v@.subrange(j + 1, j + 1 + k).push(v@[j + 1 + k]) =~= v@.subrange(
                j + 1,
                j + 1 + k + 1,
            ));
        }
        k = k + 1;
    }
    Some((out, j + 1 + count))
}

/// Reads one truth tag.
fn r_bool(v: &Vec<char>, i: usize) -> (r: Option<(bool, usize)>)
    ensures
        match p_bool(v@, i as int) {
            Some((b, j)) => r matches Some(p) && p.0 == b && p.1 == j,
            None => r is None,
        },
        r matches Some(p) ==> i < p.1 <= v@.len(),
{
    if i < v.len() && v[i] == 't' {
        Some((true, i + 1))
    } else if i < v.len() && v[i] == 'f' {
        Some((false, i + 1))
    } else {
        None
    }
}

/// Reads one state tag.
fn r_state(v: &Vec<char>, i: usize) -> (r: Option<(FileEntryState, usize)>)
    ensures
        forall|st: FileEntryState, rest: Seq<char>|
            i <= v@.len() && v@.skip(i as int) == enc_state(st) + rest ==> (r matches Some(p)
                && p.0 == st && p.1 == i + 1),
        r matches Some(p) ==> i < p.1 <= v@.len(),
{
    if i >= v.len() {
        proof {
            assert forall|st: FileEntryState, rest: Seq<char>|
                i <= v@.len() && v@.skip(i as int) == enc_state(st) + rest implies false by {
                assert(v@.skip(i as int).len() == v@.len() - i);
                assert(enc_state(st).len() == 1);
            }
        }
        return None;
    }
    let c = v[i];
    proof {
        assert forall|st: FileEntryState, rest: Seq<char>|
            i <= v@.len() && v@.skip(i as int) == enc_state(st) + rest implies v@[i as int]
            == enc_state(st)[0] by {
            assert(v@.skip(i as int)[0] == v@[i as int]);
        }
    }
    match c {
        'I' => Some((FileEntryState::Idle, i + 1)),
        'P' => Some((FileEntryState::Plotted, i + 1)),
        'V' => Some((FileEntryState::PreviouslyPlotted, i + 1)),
        'A' => Some((FileEntryState::Active, i + 1)),
        'N' => Some((FileEntryState::NeedsConfig, i + 1)),
        _ => None,
    }
}

/// Where an encoded color stands at `i`, each of its pieces parses at
/// its place.
pub proof fn lemma_color_parse(s: Seq<char>, i: int, c: Color, rest: Seq<char>)
    requires
        0 <= i <= s.len(),
        s.skip(i) == enc_color(c) + rest,
        rest.len() == 0 || !is_digit(rest[0]),
    ensures
        ({
            let dr = dec_digits(c.r as nat);
            let dg = dec_digits(c.g as nat);
            let db = dec_digits(c.b as nat);
            let da = dec_digits(c.a as nat);
            let j1 = i + dr.len();
            let j3 = j1 + 1 + dg.len();
            let j5 = j3 + 1 + db.len();
            let j7 = j5 + 1 + da.len();
            &&& p_u64(s, i) == Some((c.r as u64, j1))
            &&& j1 < s.len() && s[j1] == ','
            &&& p_u64(s, j1 + 1) == Some((c.g as u64, j3))
            &&& j3 < s.len() && s[j3] == ','
            &&& p_u64(s, j3 + 1) == Some((c.b as u64, j5))
            &&& j5 < s.len() && s[j5] == ','
            &&& p_u64(s, j5 + 1) == Some((c.a as u64, j7))
            &&& j7 == i + enc_color(c).len()
            &&& j7 <= s.len()
        }),
{
    let dr = dec_digits(c.r as nat);
    let dg = dec_digits(c.g as nat);
    let db = dec_digits(c.b as nat);
    let da = dec_digits(c.a as nat);
    let t1 = seq![','] + (dg + (seq![','] + (db + (seq![','] + (da + rest)))));
    let t2 = dg + (seq![','] + (db + (seq![','] + (da + rest))));
    let t3 = seq![','] + (db + (seq![','] + (da + rest)));
    let t4 = db + (seq![','] + (da + rest));
    let t5 = seq![','] + (da + rest);
    let t6 = da + rest;
    assert(enc_color(c) + rest =~= dr + t1);
    assert(!is_digit(',')) by {
        assert(',' as int == 44);
    }
    assert(t1[0] == ',');
    lemma_p_u64(s, i, c.r as u64, t1);
    lemma_skip_concat(s, i, dr, t1);
    let j1 = i + dr.len();
    lemma_skip_concat(s, j1, seq![','], t2);
    assert(s[j1] == ',');
    lemma_dec_digits_head(c.g as nat);
    assert(t2 =~= dg + (seq![','] + (db + (seq![','] + (da + rest)))));
    lemma_p_u64(s, j1 + 1, c.g as u64, t3);
    lemma_skip_concat(s, j1 + 1, dg, t3);
    let j3 = j1 + 1 + dg.len();
    lemma_skip_concat(s, j3, seq![','], t4);
    assert(s[j3] == ',');
    lemma_p_u64(s, j3 + 1, c.b as u64, t5);
    lemma_skip_concat(s, j3 + 1, db, t5);
    let j5 = j3 + 1 + db.len();
    lemma_skip_concat(s, j5, seq![','], t6);
    assert(s[j5] == ',');
    lemma_p_u64(s, j5 + 1, c.a as u64, rest);
    lemma_skip_concat(s, j5 + 1, da, rest);
}

/// Reads one encoded color.
#[verifier::rlimit(50)]
fn r_color(v: &Vec<char>, i: usize) -> (r: Option<(Color, usize)>)
    ensures
        forall|c: Color, rest: Seq<char>|
            i <= v@.len() && v@.skip(i as int) == enc_color(c) + rest && (rest.len() == 0
                || !is_digit(rest[0])) ==> (r matches Some(p) && p.0 == c && p.1 == i + enc_color(
                c,
            ).len()),
        r matches Some(p) ==> i < p.1 <= v@.len(),
{
    let cr = match r_u64(v, i) {
        Some(p) => p,
        None => {
            proof {
                assert forall|c: Color, rest: Seq<char>|
                    i <= v@.len() && v@.skip(i as int) == enc_color(c) + rest && (rest.len() == 0
                        || !is_digit(rest[0])) implies false by {
                    lemma_color_parse(v@, i as int, c, rest);
                }
            }
            return None;
        },
    };
    let (rv, j1) = cr;
    let c1 = match r_char(v, j1, ',') {
        Some(j) => j,
        None => {
            proof {
                assert forall|c: Color, rest: Seq<char>|
                    i <= v@.len() && v@.skip(i as int) == enc_color(c) + rest && (rest.len() == 0
                        || !is_digit(rest[0])) implies false by {
                    lemma_color_parse(v@, i as int, c, rest);
                }
            }
            return None;
        },
    };
    let gr = match r_u64(v, c1) {
        Some(p) => p,
        None => {
            proof {
                assert forall|c: Color, rest: Seq<char>|
                    i <= v@.len() && v@.skip(i as int) == enc_color(c) + rest && (rest.len() == 0
                        || !is_digit(rest[0])) implies false by {
                    lemma_color_parse(v@, i as int, c, rest);
                }
            }
            return None;
        },
    };
    let (gv, j3) = gr;
    let c2 = match r_char(v, j3, ',') {
        Some(j) => j,
        None => {
            proof {
                assert forall|c: Color, rest: Seq<char>|
                    i <= v@.len() && v@.skip(i as int) == enc_color(c) + rest && (rest.len() == 0
                        || !is_digit(rest[0])) implies false by {
                    lemma_color_parse(v@, i as int, c, rest);
                }
            }
            return None;
        },
    };
    let br = match r_u64(v, c2) {
        Some(p) => p,
        None => {
            proof {
                assert forall|c: Color, rest: Seq<char>|
                    i <= v@.len() && v@.skip(i as int) == enc_color(c) + rest && (rest.len() == 0
                        || !is_digit(rest[0])) implies false by {
                    lemma_color_parse(v@, i as int, c, rest);
                }
            }
            return None;
        },
    };
    let (bv, j5) = br;
    let c3 = match r_char(v, j5, ',') {
        Some(j) => j,
        None => {
            proof {
                assert forall|c: Color, rest: Seq<char>|
                    i <= v@.len() && v@.skip(i as int) == enc_color(c) + rest && (rest.len() == 0
                        || !is_digit(rest[0])) implies false by {
                    lemma_color_parse(v@, i as int, c, rest);
                }
            }
            return None;
        },
    };
    let ar = match r_u64(v, c3) {
        Some(p) => p,
        None => {
            proof {
                assert forall|c: Color, rest: Seq<char>|
                    i <= v@.len() && v@.skip(i as int) == enc_color(c) + rest && (rest.len() == 0
                        || !is_digit(rest[0])) implies false by {
                    lemma_color_parse(v@, i as int, c, rest);
                }
            }
            return None;
        },
    };
    let (av, j7) = ar;
    if rv > 255 || gv > 255 || bv > 255 || av > 255 {
        proof {
            assert forall|c: Color, rest: Seq<char>|
                i <= v@.len() && v@.skip(i as int) == enc_color(c) + rest && (rest.len() == 0
                    || !is_digit(rest[0])) implies false by {
                lemma_color_parse(v@, i as int, c, rest);
            }
        }
        return None;
    }
    let out = Color { r: rv as u8, g: gv as u8, b: bv as u8, a: av as u8 };
    proof {
        assert forall|c: Color, rest: Seq<char>|
            i <= v@.len() && v@.skip(i as int) == enc_color(c) + rest && (rest.len() == 0
                || !is_digit(rest[0])) implies out == c && j7 == i + enc_color(c).len() by {
            lemma_color_parse(v@, i as int, c, rest);
        }
    }
    Some((out, j7))
}

/// A point list the codec round-trips: texts in bounds and numeric.
pub open spec fn points_wf(ps: Seq<(Seq<char>, Seq<char>)>) -> bool {
    forall|k: int|
        0 <= k < ps.len() ==> str_ok((#[trigger] ps[k]).0) && str_ok(ps[k].1) && is_numeric_text(
            ps[k].0,
        ) && is_numeric_text(ps[k].1)
}

/// Where an encoded point stands at `i`, each of its pieces parses at
/// its place.
pub proof fn lemma_point_parse(s: Seq<char>, i: int, p: (Seq<char>, Seq<char>), rest: Seq<char>)
    requires
        0 <= i <= s.len(),
        str_ok(p.0),
        str_ok(p.1),
        s.skip(i) == enc_point(p) + rest,
    ensures
        ({
            let j1 = i + enc_str(p.0).len();
            let j3 = j1 + 1 + enc_str(p.1).len();
            &&& p_str(s, i) == Some((p.0, j1))
            &&& j1 < s.len() && s[j1] == ','
            &&& p_str(s, j1 + 1) == Some((p.1, j3))
            &&& j3 < s.len() && s[j3] == ';'
            &&& j3 + 1 == i + enc_point(p).len()
            &&& j3 + 1 <= s.len()
        }),
{
    let ex = enc_str(p.0);
    let ey = enc_str(p.1);
    let t1 = seq![','] + (ey + (seq![';'] + rest));
    let t2 = ey + (seq![';'] + rest);
    let t3 = seq![';'] + rest;
    assert(enc_point(p) + rest =~= ex + t1);
    lemma_p_str(s, i, p.0, t1);
    lemma_skip_concat(s, i, ex, t1);
    let j1 = i + ex.len();
    assert(s.skip(j1)[0] == ',');
    assert(s[j1] == s.skip(j1)[0]);
    lemma_skip_concat(s, j1, seq![','], t2);
    lemma_p_str(s, j1 + 1, p.1, t3);
    lemma_skip_concat(s, j1 + 1, ey, t3);
    let j3 = j1 + 1 + ey.len();
    assert(s.skip(j3)[0] == ';');
    assert(s[j3] == s.skip(j3)[0]);
    lemma_skip_concat(s, j3, seq![';'], rest);
}

/// The head of an encoded, unfinished list is not the list terminator.
pub proof fn lemma_list_head_char<T>(
    s: Seq<char>,
    i: int,
    items: Seq<T>,
    f: spec_fn(T) -> Seq<char>,
    rest: Seq<char>,
    head: char,
)
    requires
        0 <= i <= s.len(),
        s.skip(i) == enc_list_from(items, 0, f) + rest,
        items.len() > 0 ==> f(items[0]).len() > 0 && f(items[0])[0] == head,
    ensures
        i < s.len(),
        items.len() > 0 ==> s[i] == head,
        items.len() == 0 ==> s[i] == ']',
{
    assert(s.skip(i).len() == s.len() - i);
    if items.len() > 0 {
        assert(enc_list_from(items, 0, f) == f(items[0]) + enc_list_from(items, 1, f));
        assert(s.skip(i)[0] == (f(items[0]) + enc_list_from(items, 1, f) + rest)[0]);
        assert(s[i] == s.skip(i)[0]);
    } else {
        assert(enc_list_from(items, 0, f) == seq![']']);
        assert(s[i] == s.skip(i)[0]);
    }
}

/// Reads one encoded point list.
#[verifier::rlimit(80)]
fn r_points(v: &Vec<char>, i: usize) -> (r: Option<(Vec<(String, String)>, usize)>)
    ensures
        forall|ps: Seq<(Seq<char>, Seq<char>)>, rest: Seq<char>|
            points_wf(ps) && i <= v@.len() && v@.skip(i as int) == enc_list_from(
                ps,
                0,
                point_encoder(),
            ) + rest ==> (r matches Some(p) && p.0.deep_view() == ps && p.1 == i + enc_list_from(
                ps,
                0,
                point_encoder(),
            ).len()),
        r matches Some(p) ==> i < p.1 <= v@.len(),
        r matches Some(p) ==> forall|k: int|
            0 <= k < p.0.deep_view().len() ==> is_numeric_text(
                (#[trigger] p.0.deep_view()[k]).0,
            ) && is_numeric_text(p.0.deep_view()[k].1),
    decreases v@.len() - i,
{
    let ghost f = point_encoder();
    proof {
        assert forall|ps: Seq<(Seq<char>, Seq<char>)>, rest: Seq<char>|
            points_wf(ps) && i <= v@.len() && v@.skip(i as int) == enc_list_from(ps, 0, f) + rest
            implies v@.len() > i && (ps.len() > 0 ==> is_digit(v@[i as int]) && v@[i as int]
            != ']') && (ps.len() == 0 ==> v@[i as int] == ']') by {
            if ps.len() > 0 {
                crate::text::lemma_dec_digits_are_digits(ps[0].0.len());
                assert(f(ps[0]) == enc_point(ps[0]));
                assert(enc_point(ps[0])[0] == dec_digits(ps[0].0.len())[0]);
                lemma_list_head_char(v@, i as int, ps, f, rest, enc_point(ps[0])[0]);
                assert(!is_digit(']')) by {
                    assert(']' as int == 93);
                }
            } else {
                lemma_list_head_char(v@, i as int, ps, f, rest, ']');
            }
        }
    }
    if i < v.len() && v[i] == ']' {
        let out: Vec<(String, String)> = Vec::new();
        proof {
            assert(out.deep_view() =~= Seq::<(Seq<char>, Seq<char>)>::empty());
        }
        return Some((out, i + 1));
    }
    // from here, a list hypothesis forces a first point
    let sx = match r_str(v, i) {
        Some(p) => p,
        None => {
            proof {
                assert forall|ps: Seq<(Seq<char>, Seq<char>)>, rest: Seq<char>|
                    points_wf(ps) && i <= v@.len() && v@.skip(i as int) == enc_list_from(ps, 0, f)
                        + rest implies false by {
                    lemma_points_step(v@, i as int, ps, rest);
                }
            }
            return None;
        },
    };
    let (x_text, j1) = sx;
    let c1 = match r_char(v, j1, ',') {
        Some(j) => j,
        None => {
            proof {
                assert forall|ps: Seq<(Seq<char>, Seq<char>)>, rest: Seq<char>|
                    points_wf(ps) && i <= v@.len() && v@.skip(i as int) == enc_list_from(ps, 0, f)
                        + rest implies false by {
                    lemma_points_step(v@, i as int, ps, rest);
                }
            }
            return None;
        },
    };
    let sy = match r_str(v, c1) {
        Some(p) => p,
        None => {
            proof {
                assert forall|ps: Seq<(Seq<char>, Seq<char>)>, rest: Seq<char>|
                    points_wf(ps) && i <= v@.len() && v@.skip(i as int) == enc_list_from(ps, 0, f)
                        + rest implies false by {
                    lemma_points_step(v@, i as int, ps, rest);
                }
            }
            return None;
        },
    };
    let (y_text, j3) = sy;
    let c2 = match r_char(v, j3, ';') {
        Some(j) => j,
        None => {
            proof {
                assert forall|ps: Seq<(Seq<char>, Seq<char>)>, rest: Seq<char>|
                    points_wf(ps) && i <= v@.len() && v@.skip(i as int) == enc_list_from(ps, 0, f)
                        + rest implies false by {
                    lemma_points_step(v@, i as int, ps, rest);
                }
            }
            return None;
        },
    };
    let x_chars = crate::text::str_to_char_vec(x_text.as_str());
    let y_chars = crate::text::str_to_char_vec(y_text.as_str());
    if !crate::text::check_numeric_text(&x_chars) || !crate::text::check_numeric_text(&y_chars) {
        proof {
            assert forall|ps: Seq<(Seq<char>, Seq<char>)>, rest: Seq<char>|
                points_wf(ps) && i <= v@.len() && v@.skip(i as int) == enc_list_from(ps, 0, f)
                    + rest implies false by {
                lemma_points_step(v@, i as int, ps, rest);
            }
        }
        return None;
    }
    let tail = match r_points(v, c2) {
        Some(p) => p,
        None => {
            proof {
                assert forall|ps: Seq<(Seq<char>, Seq<char>)>, rest: Seq<char>|
                    points_wf(ps) && i <= v@.len() && v@.skip(i as int) == enc_list_from(ps, 0, f)
                        + rest implies false by {
                    lemma_points_step(v@, i as int, ps, rest);
                    assert(points_wf(ps.skip(1)));
                }
            }
            return None;
        },
    };
    let (mut rest_vec, jend) = tail;
    rest_vec.insert(0, (x_text, y_text));
    proof {
        assert forall|ps: Seq<(Seq<char>, Seq<char>)>, rest: Seq<char>|
            points_wf(ps) && i <= v@.len() && v@.skip(i as int) == enc_list_from(ps, 0, f) + rest
            implies rest_vec.deep_view() == ps && jend == i + enc_list_from(ps, 0, f).len() by {
            lemma_points_step(v@, i as int, ps, rest);
            assert(points_wf(ps.skip(1)));
            assert(tail.0.deep_view() == ps.skip(1));
            assert(rest_vec.deep_view().len() == ps.len());
            assert forall|k: int| 0 <= k < ps.len() implies rest_vec.deep_view()[k] == ps[k] by {
                assert(rest_vec.deep_view()[k] == rest_vec@[k].deep_view());
                if k == 0 {
                    assert(rest_vec@[0] == (x_text, y_text));
                } else {
                    assert(rest_vec@[k] == tail.0@[k - 1]);
                    assert(tail.0.deep_view()[k - 1] == tail.0@[k - 1].deep_view());
                    assert(ps.skip(1)[k - 1] == ps[k]);
                }
            }
            assert(rest_vec.deep_view() =~= ps);
        }
        assert forall|k: int| 0 <= k < rest_vec.deep_view().len() implies is_numeric_text(
            (#[trigger] rest_vec.deep_view()[k]).0,
        ) && is_numeric_text(rest_vec.deep_view()[k].1) by {
            if k > 0 {
                assert(rest_vec.deep_view()[k] == tail.0.deep_view()[k - 1]);
            }
        }
    }
    Some((rest_vec, jend))
}

/// Where an encoded, non-empty point list stands at `i`, its first
/// point parses at `i` and the remaining list follows it.
pub proof fn lemma_points_step(
    s: Seq<char>,
    i: int,
    ps: Seq<(Seq<char>, Seq<char>)>,
    rest: Seq<char>,
)
    requires
        0 <= i <= s.len(),
        points_wf(ps),
        ps.len() > 0,
        s.skip(i) == enc_list_from(ps, 0, point_encoder()) + rest,
    ensures
        ({
            let j1 = i + enc_str(ps[0].0).len();
            let j3 = j1 + 1 + enc_str(ps[0].1).len();
            &&& p_str(s, i) == Some((ps[0].0, j1))
            &&& j1 < s.len() && s[j1] == ','
            &&& p_str(s, j1 + 1) == Some((ps[0].1, j3))
            &&& j3 < s.len() && s[j3] == ';'
            &&& j3 + 1 <= s.len()
            &&& s.skip(j3 + 1) == enc_list_from(ps.skip(1), 0, point_encoder()) + rest
            &&& i + enc_list_from(ps, 0, point_encoder()).len() == j3 + 1 + enc_list_from(
                ps.skip(1),
                0,
                point_encoder(),
            ).len()
        }),
{
    let f = point_encoder();
    assert(enc_list_from(ps, 0, f) == f(ps[0]) + enc_list_from(ps, 1, f));
    lemma_enc_list_shift(ps, 1, f);
    let tail_enc = enc_list_from(ps.skip(1), 0, f);
    assert(enc_list_from(ps, 0, f) + rest =~= enc_point(ps[0]) + (tail_enc + rest));
    lemma_point_parse(s, i, ps[0], tail_enc + rest);
    lemma_skip_concat(s, i, enc_point(ps[0]), tail_enc + rest);
}

/// What follows a series' point list: the six numeric parameters and
/// the closing brace, then whatever comes after the series.
pub open spec fn csv_tail(c: CsvM, rest: Seq<char>) -> Seq<char> {
    seq![','] + (dec_digits(c.delimiter as nat) + (seq![','] + (dec_digits(c.comment_char as nat)
        + (seq![','] + (dec_digits(c.xcol as nat) + (seq![','] + (dec_digits(c.ycol as nat) + (
    seq![','] + (dec_digits(c.skip_header as nat) + (seq![','] + (dec_digits(c.skip_footer as nat)
        + (seq!['}'] + rest))))))))))))
}

/// Where an encoded series stands at `i`, its head parses: the brace,
/// the path, and the bracket that opens its point list.
pub proof fn lemma_csv_head(s: Seq<char>, i: int, c: CsvM, rest: Seq<char>)
    requires
        0 <= i <= s.len(),
        csv_m_wf(c),
        s.skip(i) == enc_csv(c) + rest,
    ensures
        ({
            let jp = i + 1 + enc_str(c.path).len();
            &&& i < s.len() && s[i] == '{'
            &&& p_str(s, i + 1) == Some((c.path, jp))
            &&& jp < s.len() && s[jp] == ','
            &&& jp + 1 < s.len() && s[jp + 1] == '['
            &&& jp + 2 <= s.len() && s.skip(jp + 2) == enc_list_from(
                c.points,
                0,
                point_encoder(),
            ) + csv_tail(c, rest)
            &&& i + enc_csv(c).len() == jp + 2 + enc_list_from(c.points, 0, point_encoder()).len()
                + csv_tail(c, rest).len() - rest.len()
        }),
{
    let pe = point_encoder();
    let el = enc_list_from(c.points, 0, pe);
    let d1 = dec_digits(c.delimiter as nat);
    let d2 = dec_digits(c.comment_char as nat);
    let d3 = dec_digits(c.xcol as nat);
    let d4 = dec_digits(c.ycol as nat);
    let d5 = dec_digits(c.skip_header as nat);
    let d6 = dec_digits(c.skip_footer as nat);
    let a0 = seq!['{'];
    let a1 = a0 + enc_str(c.path);
    let a2 = a1 + seq![','];
    let a3 = a2 + enc_list(c.points, pe);
    let a4 = a3 + seq![','];
    let a5 = a4 + d1;
    let a6 = a5 + seq![','];
    let a7 = a6 + d2;
    let a8 = a7 + seq![','];
    let a9 = a8 + d3;
    let a10 = a9 + seq![','];
    let a11 = a10 + d4;
    let a12 = a11 + seq![','];
    let a13 = a12 + d5;
    let a14 = a13 + seq![','];
    let a15 = a14 + d6;
    assert(enc_csv(c) == a15 + seq!['}']);
    let r1 = seq!['}'] + rest;
    lemma_concat_assoc(a15, seq!['}'], rest);
    let r2 = d6 + r1;
    lemma_concat_assoc(a14, d6, r1);
    let r3 = seq![','] + r2;
    lemma_concat_assoc(a13, seq![','], r2);
    let r4 = d5 + r3;
    lemma_concat_assoc(a12, d5, r3);
    let r5 = seq![','] + r4;
    lemma_concat_assoc(a11, seq![','], r4);
    let r6 = d4 + r5;
    lemma_concat_assoc(a10, d4, r5);
    let r7 = seq![','] + r6;
    lemma_concat_assoc(a9, seq![','], r6);
    let r8 = d3 + r7;
    lemma_concat_assoc(a8, d3, r7);
    let r9 = seq![','] + r8;
    lemma_concat_assoc(a7, seq![','], r8);
    let r10 = d2 + r9;
    lemma_concat_assoc(a6, d2, r9);
    let r11 = seq![','] + r10;
    lemma_concat_assoc(a5, seq![','], r10);
    let r12 = d1 + r11;
    lemma_concat_assoc(a4, d1, r11);
    let r13 = seq![','] + r12;
    lemma_concat_assoc(a3, seq![','], r12);
    assert(s.skip(i) == a3 + r13);
    let r14 = enc_list(c.points, pe) + r13;
    lemma_concat_assoc(a2, enc_list(c.points, pe), r13);
    let r15 = seq![','] + r14;
    lemma_concat_assoc(a1, seq![','], r14);
    let r16 = enc_str(c.path) + r15;
    lemma_concat_assoc(a0, enc_str(c.path), r15);
    assert(s.skip(i) == a0 + r16);
    lemma_skip_concat(s, i, a0, r16);
    assert(s[i] == s.skip(i)[0]);
    lemma_p_str(s, i + 1, c.path, r15);
    lemma_skip_concat(s, i + 1, enc_str(c.path), r15);
    let jp = i + 1 + enc_str(c.path).len();
    assert(s[jp] == s.skip(jp)[0]);
    lemma_skip_concat(s, jp, seq![','], r14);
    assert(enc_list(c.points, pe) + r13 =~= seq!['['] + (el + r13));
    assert(s[jp + 1] == s.skip(jp + 1)[0]);
    lemma_skip_concat(s, jp + 1, seq!['['], el + r13);
    lemma_skip_concat(s, jp + 2, el, r13);
    assert(r13 == csv_tail(c, rest));
}

/// Where a series' numeric tail stands at `jl`, each parameter parses
/// at its place.
pub proof fn lemma_csv_nums(s: Seq<char>, jl: int, c: CsvM, rest: Seq<char>)
    requires
        0 <= jl <= s.len(),
        s.skip(jl) == csv_tail(c, rest),
    ensures
        ({
            let j1 = jl + 1 + dec_digits(c.delimiter as nat).len();
            let j2 = j1 + 1 + dec_digits(c.comment_char as nat).len();
            let j3 = j2 + 1 + dec_digits(c.xcol as nat).len();
            let j4 = j3 + 1 + dec_digits(c.ycol as nat).len();
            let j5 = j4 + 1 + dec_digits(c.skip_header as nat).len();
            let j6 = j5 + 1 + dec_digits(c.skip_footer as nat).len();
            &&& jl < s.len() && s[jl] == ','
            &&& p_u64(s, jl + 1) == Some((c.delimiter as u64, j1))
            &&& j1 < s.len() && s[j1] == ','
            &&& p_u64(s, j1 + 1) == Some((c.comment_char as u64, j2))
            &&& j2 < s.len() && s[j2] == ','
            &&& p_u64(s, j2 + 1) == Some((c.xcol as u64, j3))
            &&& j3 < s.len() && s[j3] == ','
            &&& p_u64(s, j3 + 1) == Some((c.ycol as u64, j4))
            &&& j4 < s.len() && s[j4] == ','
            &&& p_u64(s, j4 + 1) == Some((c.skip_header as u64, j5))
            &&& j5 < s.len() && s[j5] == ','
            &&& p_u64(s, j5 + 1) == Some((c.skip_footer as u64, j6))
            &&& j6 < s.len() && s[j6] == '}'
            &&& j6 + 1 <= s.len()
            &&& j6 + 1 == jl + csv_tail(c, rest).len() - rest.len()
        }),
{
    let d1 = dec_digits(c.delimiter as nat);
    let d2 = dec_digits(c.comment_char as nat);
    let d3 = dec_digits(c.xcol as nat);
    let d4 = dec_digits(c.ycol as nat);
    let d5 = dec_digits(c.skip_header as nat);
    let d6 = dec_digits(c.skip_footer as nat);
    assert(!is_digit(',') && !is_digit('}')) by {
        assert(',' as int == 44 && '}' as int == 125);
    }
    let r1 = seq!['}'] + rest;
    let r2 = d6 + r1;
    let r3 = seq![','] + r2;
    let r4 = d5 + r3;
    let r5 = seq![','] + r4;
    let r6 = d4 + r5;
    let r7 = seq![','] + r6;
    let r8 = d3 + r7;
    let r9 = seq![','] + r8;
    let r10 = d2 + r9;
    let r11 = seq![','] + r10;
    let r12 = d1 + r11;
    assert(s.skip(jl).len() == s.len() - jl);
    assert(s.skip(jl) == seq![','] + r12);
    assert(s[jl] == s.skip(jl)[0]);
    lemma_skip_concat(s, jl, seq![','], r12);
    lemma_p_u64(s, jl + 1, c.delimiter as u64, r11);
    lemma_skip_concat(s, jl + 1, d1, r11);
    let j1 = jl + 1 + d1.len();
    assert(s[j1] == s.skip(j1)[0]);
    lemma_skip_concat(s, j1, seq![','], r10);
    lemma_p_u64(s, j1 + 1, c.comment_char as u64, r9);
    lemma_skip_concat(s, j1 + 1, d2, r9);
    let j2 = j1 + 1 + d2.len();
    assert(s[j2] == s.skip(j2)[0]);
    lemma_skip_concat(s, j2, seq![','], r8);
    lemma_p_u64(s, j2 + 1, c.xcol as u64, r7);
    lemma_skip_concat(s, j2 + 1, d3, r7);
    let j3 = j2 + 1 + d3.len();
    assert(s[j3] == s.skip(j3)[0]);
    lemma_skip_concat(s, j3, seq![','], r6);
    lemma_p_u64(s, j3 + 1, c.ycol as u64, r5);
    lemma_skip_concat(s, j3 + 1, d4, r5);
    let j4 = j3 + 1 + d4.len();
    assert(s[j4] == s.skip(j4)[0]);
    lemma_skip_concat(s, j4, seq![','], r4);
    lemma_p_u64(s, j4 + 1, c.skip_header as u64, r3);
    lemma_skip_concat(s, j4 + 1, d5, r3);
    let j5 = j4 + 1 + d5.len();
    assert(s[j5] == s.skip(j5)[0]);
    lemma_skip_concat(s, j5, seq![','], r2);
    lemma_p_u64(s, j5 + 1, c.skip_footer as u64, r1);
    lemma_skip_concat(s, j5 + 1, d6, r1);
    let j6 = j5 + 1 + d6.len();
    assert(s[j6] == s.skip(j6)[0]);
    lemma_skip_concat(s, j6, seq!['}'], rest);
}

/// Reads a series' numeric tail: the six parameters and the closing
/// brace.
#[verifier::rlimit(100)]
fn r_csv_nums(v: &Vec<char>, jl: usize) -> (r: Option<((u64, u64, u64, u64, u64, u64), usize)>)
    ensures
        forall|c: CsvM, rest: Seq<char>|
            jl <= v@.len() && v@.skip(jl as int) == csv_tail(c, rest) ==> (r matches Some(p)
                && p.0 == ((c.delimiter as u64, c.comment_char as u64, c.xcol as u64,
            c.ycol as u64, c.skip_header as u64, c.skip_footer as u64)) && p.1 == jl + csv_tail(
                c,
                rest,
            ).len() - rest.len()),
        r matches Some(p) ==> jl < p.1 <= v@.len(),
{
    let b5 = match r_char(v, jl, ',') {
        Some(j) => j,
        None => {
            proof {
                assert forall|c: CsvM, rest: Seq<char>|
                    jl <= v@.len() && v@.skip(jl as int) == csv_tail(c, rest) implies false by {
                    lemma_csv_nums(v@, jl as int, c, rest);
                }
            }
            return None;
        },
    };
    let (n_delim, b6) = match r_u64(v, b5) {
        Some(p) => p,
        None => {
            proof {
                assert forall|c: CsvM, rest: Seq<char>|
                    jl <= v@.len() && v@.skip(jl as int) == csv_tail(c, rest) implies false by {
                    lemma_csv_nums(v@, jl as int, c, rest);
                }
            }
            return None;
        },
    };
    let b7 = match r_char(v, b6, ',') {
        Some(j) => j,
        None => {
            proof {
                assert forall|c: CsvM, rest: Seq<char>|
                    jl <= v@.len() && v@.skip(jl as int) == csv_tail(c, rest) implies false by {
                    lemma_csv_nums(v@, jl as int, c, rest);
                }
            }
            return None;
        },
    };
    let (n_comment, b8) = match r_u64(v, b7) {
        Some(p) => p,
        None => {
            proof {
                assert forall|c: CsvM, rest: Seq<char>|
                    jl <= v@.len() && v@.skip(jl as int) == csv_tail(c, rest) implies false by {
                    lemma_csv_nums(v@, jl as int, c, rest);
                }
            }
            return None;
        },
    };
    let b9 = match r_char(v, b8, ',') {
        Some(j) => j,
        None => {
            proof {
                assert forall|c: CsvM, rest: Seq<char>|
                    jl <= v@.len() && v@.skip(jl as int) == csv_tail(c, rest) implies false by {
                    lemma_csv_nums(v@, jl as int, c, rest);
                }
            }
            return None;
        },
    };
    let (n_xcol, b10) = match r_u64(v, b9) {
        Some(p) => p,
        None => {
            proof {
                assert forall|c: CsvM, rest: Seq<char>|
                    jl <= v@.len() && v@.skip(jl as int) == csv_tail(c, rest) implies false by {
                    lemma_csv_nums(v@, jl as int, c, rest);
                }
            }
            return None;
        },
    };
    let b11 = match r_char(v, b10, ',') {
        Some(j) => j,
        None => {
            proof {
                assert forall|c: CsvM, rest: Seq<char>|
                    jl <= v@.len() && v@.skip(jl as int) == csv_tail(c, rest) implies false by {
                    lemma_csv_nums(v@, jl as int, c, rest);
                }
            }
            return None;
        },
    };
    let (n_ycol, b12) = match r_u64(v, b11) {
        Some(p) => p,
        None => {
            proof {
                assert forall|c: CsvM, rest: Seq<char>|
                    jl <= v@.len() && v@.skip(jl as int) == csv_tail(c, rest) implies false by {
                    lemma_csv_nums(v@, jl as int, c, rest);
                }
            }
            return None;
        },
    };
    let b13 = match r_char(v, b12, ',') {
        Some(j) => j,
        None => {
            proof {
                assert forall|c: CsvM, rest: Seq<char>|
                    jl <= v@.len() && v@.skip(jl as int) == csv_tail(c, rest) implies false by {
                    lemma_csv_nums(v@, jl as int, c, rest);
                }
            }
            return None;
        },
    };
    let (n_skiph, b14) = match r_u64(v, b13) {
        Some(p) => p,
        None => {
            proof {
                assert forall|c: CsvM, rest: Seq<char>|
                    jl <= v@.len() && v@.skip(jl as int) == csv_tail(c, rest) implies false by {
                    lemma_csv_nums(v@, jl as int, c, rest);
                }
            }
            return None;
        },
    };
    let b15 = match r_char(v, b14, ',') {
        Some(j) => j,
        None => {
            proof {
                assert forall|c: CsvM, rest: Seq<char>|
                    jl <= v@.len() && v@.skip(jl as int) == csv_tail(c, rest) implies false by {
                    lemma_csv_nums(v@, jl as int, c, rest);
                }
            }
            return None;
        },
    };
    let (n_skipf, b16) = match r_u64(v, b15) {
        Some(p) => p,
        None => {
            proof {
                assert forall|c: CsvM, rest: Seq<char>|
                    jl <= v@.len() && v@.skip(jl as int) == csv_tail(c, rest) implies false by {
                    lemma_csv_nums(v@, jl as int, c, rest);
                }
            }
            return None;
        },
    };
    let b17 = match r_char(v, b16, '}') {
        Some(j) => j,
        None => {
            proof {
                assert forall|c: CsvM, rest: Seq<char>|
                    jl <= v@.len() && v@.skip(jl as int) == csv_tail(c, rest) implies false by {
                    lemma_csv_nums(v@, jl as int, c, rest);
                }
            }
            return None;
        },
    };
    proof {
        assert forall|c: CsvM, rest: Seq<char>|
            jl <= v@.len() && v@.skip(jl as int) == csv_tail(c, rest) implies ((n_delim, n_comment,
        n_xcol, n_ycol, n_skiph, n_skipf) == ((c.delimiter as u64, c.comment_char as u64,
        c.xcol as u64, c.ycol as u64, c.skip_header as u64, c.skip_footer as u64)) && b17 == jl
            + csv_tail(c, rest).len() - rest.len()) by {
            lemma_csv_nums(v@, jl as int, c, rest);
        }
    }
    Some(((n_delim, n_comment, n_xcol, n_ycol, n_skiph, n_skipf), b17))
}

/// Reads one encoded series.
#[verifier::rlimit(100)]
fn r_csv(v: &Vec<char>, i: usize) -> (r: Option<(CSVFile, usize)>)
    ensures
        forall|c: CsvM, rest: Seq<char>|
            csv_m_wf(c) && i <= v@.len() && v@.skip(i as int) == enc_csv(c) + rest ==> (r matches
                Some(p) && csv_model(p.0) == c && p.1 == i + enc_csv(c).len()),
        r matches Some(p) ==> i < p.1 <= v@.len() && p.0.wf(),
{
    let b0 = match r_char(v, i, '{') {
        Some(j) => j,
        None => {
            proof {
                assert forall|c: CsvM, rest: Seq<char>|
                    csv_m_wf(c) && i <= v@.len() && v@.skip(i as int) == enc_csv(c) + rest
                    implies false by {
                    lemma_csv_head(v@, i as int, c, rest);
                }
            }
            return None;
        },
    };
    let (path_text, b1) = match r_str(v, b0) {
        Some(p) => p,
        None => {
            proof {
                assert forall|c: CsvM, rest: Seq<char>|
                    csv_m_wf(c) && i <= v@.len() && v@.skip(i as int) == enc_csv(c) + rest
                    implies false by {
                    lemma_csv_head(v@, i as int, c, rest);
                }
            }
            return None;
        },
    };
    let b2 = match r_char(v, b1, ',') {
        Some(j) => j,
        None => {
            proof {
                assert forall|c: CsvM, rest: Seq<char>|
                    csv_m_wf(c) && i <= v@.len() && v@.skip(i as int) == enc_csv(c) + rest
                    implies false by {
                    lemma_csv_head(v@, i as int, c, rest);
                }
            }
            return None;
        },
    };
    let b3 = match r_char(v, b2, '[') {
        Some(j) => j,
        None => {
            proof {
                assert forall|c: CsvM, rest: Seq<char>|
                    csv_m_wf(c) && i <= v@.len() && v@.skip(i as int) == enc_csv(c) + rest
                    implies false by {
                    lemma_csv_head(v@, i as int, c, rest);
                }
            }
            return None;
        },
    };
    let (points, b4) = match r_points(v, b3) {
        Some(p) => p,
        None => {
            proof {
                assert forall|c: CsvM, rest: Seq<char>|
                    csv_m_wf(c) && i <= v@.len() && v@.skip(i as int) == enc_csv(c) + rest
                    implies false by {
                    lemma_csv_head(v@, i as int, c, rest);
                    assert(points_wf(c.points));
                }
            }
            return None;
        },
    };
    let nums = match r_csv_nums(v, b4) {
        Some(p) => p,
        None => {
            proof {
                assert forall|c: CsvM, rest: Seq<char>|
                    csv_m_wf(c) && i <= v@.len() && v@.skip(i as int) == enc_csv(c) + rest
                    implies false by {
                    lemma_csv_head(v@, i as int, c, rest);
                    assert(points_wf(c.points));
                    let jp = i + 1 + enc_str(c.path).len();
                    lemma_skip_concat(
                        v@,
                        jp + 2,
                        enc_list_from(c.points, 0, point_encoder()),
                        csv_tail(c, rest),
                    );
                }
            }
            return None;
        },
    };
    let ((n_delim, n_comment, n_xcol, n_ycol, n_skiph, n_skipf), b17) = nums;
    if n_delim > 255 || n_comment > 255 || n_xcol > usize::MAX as u64 || n_ycol > usize::MAX as u64
        || n_skiph > usize::MAX as u64 || n_skipf > usize::MAX as u64 {
        proof {
            assert forall|c: CsvM, rest: Seq<char>|
                csv_m_wf(c) && i <= v@.len() && v@.skip(i as int) == enc_csv(c) + rest
                implies false by {
                lemma_csv_head(v@, i as int, c, rest);
                assert(points_wf(c.points));
                let jp = i + 1 + enc_str(c.path).len();
                lemma_skip_concat(
                    v@,
                    jp + 2,
                    enc_list_from(c.points, 0, point_encoder()),
                    csv_tail(c, rest),
                );
            }
        }
        return None;
    }
    let out = CSVFile {
        filepath: path_text,
        data: points,
        delimiter: n_delim as u8,
        comment_char: n_comment as u8,
        xcol: n_xcol as usize,
        ycol: n_ycol as usize,
        skip_header: n_skiph as usize,
        skip_footer: n_skipf as usize,
    };
    proof {
        assert forall|c: CsvM, rest: Seq<char>|
            csv_m_wf(c) && i <= v@.len() && v@.skip(i as int) == enc_csv(c) + rest
            implies csv_model(out) == c && b17 == i + enc_csv(c).len() by {
            lemma_csv_head(v@, i as int, c, rest);
            assert(points_wf(c.points));
            let jp = i + 1 + enc_str(c.path).len();
            lemma_skip_concat(
                v@,
                jp + 2,
                enc_list_from(c.points, 0, point_encoder()),
                csv_tail(c, rest),
            );
            assert(out.data.deep_view() == c.points);
        }
    }
    Some((out, b17))
}

/// What follows an entry's series: the transform texts, color, state,
/// id and preview, the closing brace, then whatever comes after the
/// entry.
pub open spec fn entry_tail(e: EntryM, rest: Seq<char>) -> Seq<char> {
    seq![','] + (enc_str(e.scale) + (seq![','] + (enc_str(e.offset) + (seq![','] + (enc_str(
        e.xoffset,
    ) + (seq![','] + (enc_color(e.color) + (seq![','] + (enc_state(e.state) + (seq![','] + (
    dec_digits(e.id as nat) + (seq![','] + (enc_str(e.preview) + (seq!['}'] + rest))))))))))))))
}

/// Where an encoded entry stands at `i`, its head parses: the brace,
/// the file name, and the series that follows.
pub proof fn lemma_entry_head(s: Seq<char>, i: int, e: EntryM, rest: Seq<char>)
    requires
        0 <= i <= s.len(),
        entry_m_wf(e),
        s.skip(i) == enc_entry(e) + rest,
    ensures
        ({
            let jn = i + 1 + enc_str(e.filename).len();
            &&& i < s.len() && s[i] == '{'
            &&& p_str(s, i + 1) == Some((e.filename, jn))
            &&& jn < s.len() && s[jn] == ','
            &&& jn + 1 <= s.len() && s.skip(jn + 1) == enc_csv(e.data_file) + entry_tail(e, rest)
            &&& i + enc_entry(e).len() == jn + 1 + enc_csv(e.data_file).len() + entry_tail(
                e,
                rest,
            ).len() - rest.len()
        }),
{
    let a0 = seq!['{'];
    let a1 = a0 + enc_str(e.filename);
    let a2 = a1 + seq![','];
    let a3 = a2 + enc_csv(e.data_file);
    let a4 = a3 + seq![','];
    let a5 = a4 + enc_str(e.scale);
    let a6 = a5 + seq![','];
    let a7 = a6 + enc_str(e.offset);
    let a8 = a7 + seq![','];
    let a9 = a8 + enc_str(e.xoffset);
    let a10 = a9 + seq![','];
    let a11 = a10 + enc_color(e.color);
    let a12 = a11 + seq![','];
    let a13 = a12 + enc_state(e.state);
    let a14 = a13 + seq![','];
    let a15 = a14 + dec_digits(e.id as nat);
    let a16 = a15 + seq![','];
    let a17 = a16 + enc_str(e.preview);
    assert(enc_entry(e) == a17 + seq!['}']);
    let r1 = seq!['}'] + rest;
    lemma_concat_assoc(a17, seq!['}'], rest);
    let r2 = enc_str(e.preview) + r1;
    lemma_concat_assoc(a16, enc_str(e.preview), r1);
    let r3 = seq![','] + r2;
    lemma_concat_assoc(a15, seq![','], r2);
    let r4 = dec_digits(e.id as nat) + r3;
    lemma_concat_assoc(a14, dec_digits(e.id as nat), r3);
    let r5 = seq![','] + r4;
    lemma_concat_assoc(a13, seq![','], r4);
    let r6 = enc_state(e.state) + r5;
    lemma_concat_assoc(a12, enc_state(e.state), r5);
    let r7 = seq![','] + r6;
    lemma_concat_assoc(a11, seq![','], r6);
    let r8 = enc_color(e.color) + r7;
    lemma_concat_assoc(a10, enc_color(e.color), r7);
    let r9 = seq![','] + r8;
    lemma_concat_assoc(a9, seq![','], r8);
    let r10 = enc_str(e.xoffset) + r9;
    lemma_concat_assoc(a8, enc_str(e.xoffset), r9);
    let r11 = seq![','] + r10;
    lemma_concat_assoc(a7, seq![','], r10);
    let r12 = enc_str(e.offset) + r11;
    lemma_concat_assoc(a6, enc_str(e.offset), r11);
    let r13 = seq![','] + r12;
    lemma_concat_assoc(a5, seq![','], r12);
    let r14 = enc_str(e.scale) + r13;
    lemma_concat_assoc(a4, enc_str(e.scale), r13);
    let r15 = seq![','] + r14;
    lemma_concat_assoc(a3, seq![','], r14);
    let r16 = enc_csv(e.data_file) + r15;
    lemma_concat_assoc(a2, enc_csv(e.data_file), r15);
    let r17 = seq![','] + r16;
    lemma_concat_assoc(a1, seq![','], r16);
    let r18 = enc_str(e.filename) + r17;
    lemma_concat_assoc(a0, enc_str(e.filename), r17);
    assert(s.skip(i) == a0 + r18);
    lemma_skip_concat(s, i, a0, r18);
    assert(s[i] == s.skip(i)[0]);
    lemma_p_str(s, i + 1, e.filename, r17);
    lemma_skip_concat(s, i + 1, enc_str(e.filename), r17);
    let jn = i + 1 + enc_str(e.filename).len();
    assert(s[jn] == s.skip(jn)[0]);
    lemma_skip_concat(s, jn, seq![','], r16);
    assert(r15 == entry_tail(e, rest));
}

/// Where an entry's tail stands at `jt`, each remaining piece parses
/// at its place.
#[verifier::rlimit(100)]
pub proof fn lemma_entry_tail(s: Seq<char>, jt: int, e: EntryM, rest: Seq<char>)
    requires
        0 <= jt <= s.len(),
        entry_m_wf(e),
        s.skip(jt) == entry_tail(e, rest),
    ensures
        ({
            let j1 = jt + 1 + enc_str(e.scale).len();
            let j2 = j1 + 1 + enc_str(e.offset).len();
            let j3 = j2 + 1 + enc_str(e.xoffset).len();
            let j4 = j3 + 1 + enc_color(e.color).len();
            let j5 = j4 + 1 + 1;
            let j6 = j5 + 1 + dec_digits(e.id as nat).len();
            let j7 = j6 + 1 + enc_str(e.preview).len();
            &&& jt < s.len() && s[jt] == ','
            &&& p_str(s, jt + 1) == Some((e.scale, j1))
            &&& j1 < s.len() && s[j1] == ','
            &&& p_str(s, j1 + 1) == Some((e.offset, j2))
            &&& j2 < s.len() && s[j2] == ','
            &&& p_str(s, j2 + 1) == Some((e.xoffset, j3))
            &&& j3 < s.len() && s[j3] == ','
            &&& j3 + 1 <= s.len() && s.skip(j3 + 1) == enc_color(e.color) + (seq![','] + (
            enc_state(e.state) + (seq![','] + (dec_digits(e.id as nat) + (seq![','] + (enc_str(
                e.preview,
            ) + (seq!['}'] + rest)))))))
            &&& j4 < s.len() && s[j4] == ','
            &&& j4 + 1 <= s.len() && s.skip(j4 + 1) == enc_state(e.state) + (seq![','] + (
            dec_digits(e.id as nat) + (seq![','] + (enc_str(e.preview) + (seq!['}'] + rest)))))
            &&& j5 < s.len() && s[j5] == ','
            &&& p_u64(s, j5 + 1) == Some((e.id as u64, j6))
            &&& j6 < s.len() && s[j6] == ','
            &&& p_str(s, j6 + 1) == Some((e.preview, j7))
            &&& j7 < s.len() && s[j7] == '}'
            &&& j7 + 1 <= s.len()
            &&& j7 + 1 == jt + entry_tail(e, rest).len() - rest.len()
        }),
{
    let r1 = seq!['}'] + rest;
    let r2 = enc_str(e.preview) + r1;
    let r3 = seq![','] + r2;
    let r4 = dec_digits(e.id as nat) + r3;
    let r5 = seq![','] + r4;
    let r6 = enc_state(e.state) + r5;
    let r7 = seq![','] + r6;
    let r8 = enc_color(e.color) + r7;
    let r9 = seq![','] + r8;
    let r10 = enc_str(e.xoffset) + r9;
    let r11 = seq![','] + r10;
    let r12 = enc_str(e.offset) + r11;
    let r13 = seq![','] + r12;
    let r14 = enc_str(e.scale) + r13;
    assert(s.skip(jt) == seq![','] + r14);
    assert(s.skip(jt).len() == s.len() - jt);
    assert(s[jt] == s.skip(jt)[0]);
    lemma_skip_concat(s, jt, seq![','], r14);
    lemma_p_str(s, jt + 1, e.scale, r13);
    lemma_skip_concat(s, jt + 1, enc_str(e.scale), r13);
    let j1 = jt + 1 + enc_str(e.scale).len();
    assert(s[j1] == s.skip(j1)[0]);
    lemma_skip_concat(s, j1, seq![','], r12);
    lemma_p_str(s, j1 + 1, e.offset, r11);
    lemma_skip_concat(s, j1 + 1, enc_str(e.offset), r11);
    let j2 = j1 + 1 + enc_str(e.offset).len();
    assert(s[j2] == s.skip(j2)[0]);
    lemma_skip_concat(s, j2, seq![','], r10);
    lemma_p_str(s, j2 + 1, e.xoffset, r9);
    lemma_skip_concat(s, j2 + 1, enc_str(e.xoffset), r9);
    let j3 = j2 + 1 + enc_str(e.xoffset).len();
    assert(s[j3] == s.skip(j3)[0]);
    lemma_skip_concat(s, j3, seq![','], r8);
    lemma_skip_concat(s, j3 + 1, enc_color(e.color), r7);
    let j4 = j3 + 1 + enc_color(e.color).len();
    assert(s[j4] == s.skip(j4)[0]);
    lemma_skip_concat(s, j4, seq![','], r6);
    assert(enc_state(e.state).len() == 1);
    lemma_skip_concat(s, j4 + 1, enc_state(e.state), r5);
    let j5 = j4 + 1 + 1;
    assert(s[j5] == s.skip(j5)[0]);
    lemma_skip_concat(s, j5, seq![','], r4);
    assert(!is_digit(',') && !is_digit('}')) by {
        assert(',' as int == 44 && '}' as int == 125);
    }
    lemma_p_u64(s, j5 + 1, e.id as u64, r3);
    lemma_skip_concat(s, j5 + 1, dec_digits(e.id as nat), r3);
    let j6 = j5 + 1 + dec_digits(e.id as nat).len();
    assert(s[j6] == s.skip(j6)[0]);
    lemma_skip_concat(s, j6, seq![','], r2);
    lemma_p_str(s, j6 + 1, e.preview, r1);
    lemma_skip_concat(s, j6 + 1, enc_str(e.preview), r1);
    let j7 = j6 + 1 + enc_str(e.preview).len();
    assert(s[j7] == s.skip(j7)[0]);
    lemma_skip_concat(s, j7, seq!['}'], rest);
}

/// Reads an entry's tail after its series.
#[verifier::rlimit(100)]
fn r_entry_tail(v: &Vec<char>, jt: usize) -> (r: Option<
    ((String, String, String, Color, FileEntryState, u64, String), usize),
>)
    ensures
        forall|e: EntryM, rest: Seq<char>|
            entry_m_wf(e) && jt <= v@.len() && v@.skip(jt as int) == entry_tail(e, rest) ==> (r
                matches Some(p) && p.0.0@ == e.scale && p.0.1@ == e.offset && p.0.2@ == e.xoffset
                && p.0.3 == e.color && p.0.4 == e.state && p.0.5 == e.id as u64 && p.0.6@
                == e.preview && p.1 == jt + entry_tail(e, rest).len() - rest.len()),
        r matches Some(p) ==> jt < p.1 <= v@.len(),
{
    let b0 = match r_char(v, jt, ',') {
        Some(j) => j,
        None => {
            proof {
                assert forall|e: EntryM, rest: Seq<char>|
                    entry_m_wf(e) && jt <= v@.len() && v@.skip(jt as int) == entry_tail(e, rest)
                    implies false by {
                    lemma_entry_tail(v@, jt as int, e, rest);
                }
            }
            return None;
        },
    };
    let (scale_text, b1) = match r_str(v, b0) {
        Some(p) => p,
        None => {
            proof {
                assert forall|e: EntryM, rest: Seq<char>|
                    entry_m_wf(e) && jt <= v@.len() && v@.skip(jt as int) == entry_tail(e, rest)
                    implies false by {
                    lemma_entry_tail(v@, jt as int, e, rest);
                }
            }
            return None;
        },
    };
    let b2 = match r_char(v, b1, ',') {
        Some(j) => j,
        None => {
            proof {
                assert forall|e: EntryM, rest: Seq<char>|
                    entry_m_wf(e) && jt <= v@.len() && v@.skip(jt as int) == entry_tail(e, rest)
                    implies false by {
                    lemma_entry_tail(v@, jt as int, e, rest);
                }
            }
            return None;
        },
    };
    let (offset_text, b3) = match r_str(v, b2) {
        Some(p) => p,
        None => {
            proof {
                assert forall|e: EntryM, rest: Seq<char>|
                    entry_m_wf(e) && jt <= v@.len() && v@.skip(jt as int) == entry_tail(e, rest)
                    implies false by {
                    lemma_entry_tail(v@, jt as int, e, rest);
                }
            }
            return None;
        },
    };
    let b4 = match r_char(v, b3, ',') {
        Some(j) => j,
        None => {
            proof {
                assert forall|e: EntryM, rest: Seq<char>|
                    entry_m_wf(e) && jt <= v@.len() && v@.skip(jt as int) == entry_tail(e, rest)
                    implies false by {
                    lemma_entry_tail(v@, jt as int, e, rest);
                }
            }
            return None;
        },
    };
    let (xoffset_text, b5) = match r_str(v, b4) {
        Some(p) => p,
        None => {
            proof {
                assert forall|e: EntryM, rest: Seq<char>|
                    entry_m_wf(e) && jt <= v@.len() && v@.skip(jt as int) == entry_tail(e, rest)
                    implies false by {
                    lemma_entry_tail(v@, jt as int, e, rest);
                }
            }
            return None;
        },
    };
    let b6 = match r_char(v, b5, ',') {
        Some(j) => j,
        None => {
            proof {
                assert forall|e: EntryM, rest: Seq<char>|
                    entry_m_wf(e) && jt <= v@.len() && v@.skip(jt as int) == entry_tail(e, rest)
                    implies false by {
                    lemma_entry_tail(v@, jt as int, e, rest);
                }
            }
            return None;
        },
    };
    let (color, b7) = match r_color(v, b6) {
        Some(p) => p,
        None => {
            proof {
                assert forall|e: EntryM, rest: Seq<char>|
                    entry_m_wf(e) && jt <= v@.len() && v@.skip(jt as int) == entry_tail(e, rest)
                    implies false by {
                    lemma_entry_tail(v@, jt as int, e, rest);
                }
            }
            return None;
        },
    };
    let b8 = match r_char(v, b7, ',') {
        Some(j) => j,
        None => {
            proof {
                assert forall|e: EntryM, rest: Seq<char>|
                    entry_m_wf(e) && jt <= v@.len() && v@.skip(jt as int) == entry_tail(e, rest)
                    implies false by {
                    lemma_entry_tail(v@, jt as int, e, rest);
                }
            }
            return None;
        },
    };
    let (state, b9) = match r_state(v, b8) {
        Some(p) => p,
        None => {
            proof {
                assert forall|e: EntryM, rest: Seq<char>|
                    entry_m_wf(e) && jt <= v@.len() && v@.skip(jt as int) == entry_tail(e, rest)
                    implies false by {
                    lemma_entry_tail(v@, jt as int, e, rest);
                }
            }
            return None;
        },
    };
    let b10 = match r_char(v, b9, ',') {
        Some(j) => j,
        None => {
            proof {
                assert forall|e: EntryM, rest: Seq<char>|
                    entry_m_wf(e) && jt <= v@.len() && v@.skip(jt as int) == entry_tail(e, rest)
                    implies false by {
                    lemma_entry_tail(v@, jt as int, e, rest);
                }
            }
            return None;
        },
    };
    let (id_num, b11) = match r_u64(v, b10) {
        Some(p) => p,
        None => {
            proof {
                assert forall|e: EntryM, rest: Seq<char>|
                    entry_m_wf(e) && jt <= v@.len() && v@.skip(jt as int) == entry_tail(e, rest)
                    implies false by {
                    lemma_entry_tail(v@, jt as int, e, rest);
                }
            }
            return None;
        },
    };
    let b12 = match r_char(v, b11, ',') {
        Some(j) => j,
        None => {
            proof {
                assert forall|e: EntryM, rest: Seq<char>|
                    entry_m_wf(e) && jt <= v@.len() && v@.skip(jt as int) == entry_tail(e, rest)
                    implies false by {
                    lemma_entry_tail(v@, jt as int, e, rest);
                }
            }
            return None;
        },
    };
    let (preview_text, b13) = match r_str(v, b12) {
        Some(p) => p,
        None => {
            proof {
                assert forall|e: EntryM, rest: Seq<char>|
                    entry_m_wf(e) && jt <= v@.len() && v@.skip(jt as int) == entry_tail(e, rest)
                    implies false by {
                    lemma_entry_tail(v@, jt as int, e, rest);
                }
            }
            return None;
        },
    };
    let b14 = match r_char(v, b13, '}') {
        Some(j) => j,
        None => {
            proof {
                assert forall|e: EntryM, rest: Seq<char>|
                    entry_m_wf(e) && jt <= v@.len() && v@.skip(jt as int) == entry_tail(e, rest)
                    implies false by {
                    lemma_entry_tail(v@, jt as int, e, rest);
                }
            }
            return None;
        },
    };
    proof {
        assert forall|e: EntryM, rest: Seq<char>|
            entry_m_wf(e) && jt <= v@.len() && v@.skip(jt as int) == entry_tail(e, rest)
            implies scale_text@ == e.scale && offset_text@ == e.offset && xoffset_text@
            == e.xoffset && color == e.color && state == e.state && id_num == e.id as u64
            && preview_text@ == e.preview && b14 == jt + entry_tail(e, rest).len() - rest.len() by {
            lemma_entry_tail(v@, jt as int, e, rest);
        }
    }
    Some(((scale_text, offset_text, xoffset_text, color, state, id_num, preview_text), b14))
}

/// Reads one encoded entry.
#[verifier::rlimit(100)]
fn r_entry(v: &Vec<char>, i: usize) -> (r: Option<(FileEntry, usize)>)
    ensures
        forall|e: EntryM, rest: Seq<char>|
            entry_m_wf(e) && i <= v@.len() && v@.skip(i as int) == enc_entry(e) + rest ==> (r
                matches Some(p) && entry_model(p.0) == e && p.1 == i + enc_entry(e).len()),
        r matches Some(p) ==> i < p.1 <= v@.len() && p.0.wf(),
{
    let b0 = match r_char(v, i, '{') {
        Some(j) => j,
        None => {
            proof {
                assert forall|e: EntryM, rest: Seq<char>|
                    entry_m_wf(e) && i <= v@.len() && v@.skip(i as int) == enc_entry(e) + rest
                    implies false by {
                    lemma_entry_head(v@, i as int, e, rest);
                }
            }
            return None;
        },
    };
    let (name_text, b1) = match r_str(v, b0) {
        Some(p) => p,
        None => {
            proof {
                assert forall|e: EntryM, rest: Seq<char>|
                    entry_m_wf(e) && i <= v@.len() && v@.skip(i as int) == enc_entry(e) + rest
                    implies false by {
                    lemma_entry_head(v@, i as int, e, rest);
                }
            }
            return None;
        },
    };
    let b2 = match r_char(v, b1, ',') {
        Some(j) => j,
        None => {
            proof {
                assert forall|e: EntryM, rest: Seq<char>|
                    entry_m_wf(e) && i <= v@.len() && v@.skip(i as int) == enc_entry(e) + rest
                    implies false by {
                    lemma_entry_head(v@, i as int, e, rest);
                }
            }
            return None;
        },
    };
    let (data_file, b3) = match r_csv(v, b2) {
        Some(p) => p,
        None => {
            proof {
                assert forall|e: EntryM, rest: Seq<char>|
                    entry_m_wf(e) && i <= v@.len() && v@.skip(i as int) == enc_entry(e) + rest
                    implies false by {
                    lemma_entry_head(v@, i as int, e, rest);
                }
            }
            return None;
        },
    };
    let (tail, b4) = match r_entry_tail(v, b3) {
        Some(p) => p,
        None => {
            proof {
                assert forall|e: EntryM, rest: Seq<char>|
                    entry_m_wf(e) && i <= v@.len() && v@.skip(i as int) == enc_entry(e) + rest
                    implies false by {
                    lemma_entry_head(v@, i as int, e, rest);
                    let jn = i + 1 + enc_str(e.filename).len();
                    lemma_skip_concat(v@, jn + 1, enc_csv(e.data_file), entry_tail(e, rest));
                }
            }
            return None;
        },
    };
    let (scale_text, offset_text, xoffset_text, color, state, id_num, preview_text) = tail;
    if id_num > usize::MAX as u64 {
        proof {
            assert forall|e: EntryM, rest: Seq<char>|
                entry_m_wf(e) && i <= v@.len() && v@.skip(i as int) == enc_entry(e) + rest
                implies false by {
                lemma_entry_head(v@, i as int, e, rest);
                let jn = i + 1 + enc_str(e.filename).len();
                lemma_skip_concat(v@, jn + 1, enc_csv(e.data_file), entry_tail(e, rest));
            }
        }
        return None;
    }
    let out = FileEntry {
        filename: name_text,
        data_file,
        scale: FloatInput { input: scale_text },
        offset: FloatInput { input: offset_text },
        xoffset: FloatInput { input: xoffset_text },
        color,
        state,
        id: id_num as usize,
        preview: preview_text,
    };
    proof {
        assert forall|e: EntryM, rest: Seq<char>|
            entry_m_wf(e) && i <= v@.len() && v@.skip(i as int) == enc_entry(e) + rest
            implies entry_model(out) == e && b4 == i + enc_entry(e).len() by {
            lemma_entry_head(v@, i as int, e, rest);
            let jn = i + 1 + enc_str(e.filename).len();
            lemma_skip_concat(v@, jn + 1, enc_csv(e.data_file), entry_tail(e, rest));
        }
    }
    Some((out, b4))
}

/// An entry list the codec round-trips.
pub open spec fn entries_wf(es: Seq<EntryM>) -> bool {
    forall|k: int| 0 <= k < es.len() ==> entry_m_wf(#[trigger] es[k])
}

/// Where an encoded, non-empty entry list stands at `i`, its first
/// entry stands at `i` and the remaining list follows it.
pub proof fn lemma_entries_step(s: Seq<char>, i: int, es: Seq<EntryM>, rest: Seq<char>)
    requires
        0 <= i <= s.len(),
        entries_wf(es),
        es.len() > 0,
        s.skip(i) == enc_list_from(es, 0, entry_encoder()) + rest,
    ensures
        s.skip(i) == enc_entry(es[0]) + (enc_list_from(es.skip(1), 0, entry_encoder()) + rest),
        entries_wf(es.skip(1)),
        i + enc_list_from(es, 0, entry_encoder()).len() == i + enc_entry(es[0]).len()
            + enc_list_from(es.skip(1), 0, entry_encoder()).len(),
{
    let f = entry_encoder();
    assert(enc_list_from(es, 0, f) == f(es[0]) + enc_list_from(es, 1, f));
    lemma_enc_list_shift(es, 1, f);
    assert(enc_list_from(es, 0, f) + rest =~= enc_entry(es[0]) + (enc_list_from(
        es.skip(1),
        0,
        f,
    ) + rest));
    assert forall|k: int| 0 <= k < es.skip(1).len() implies entry_m_wf(
        #[trigger] es.skip(1)[k],
    ) by {
        assert(es.skip(1)[k] == es[k + 1]);
    }
}

/// Reads one encoded entry list.
#[verifier::rlimit(100)]
fn r_entries(v: &Vec<char>, i: usize) -> (r: Option<(Vec<FileEntry>, usize)>)
    ensures
        forall|es: Seq<EntryM>, rest: Seq<char>|
            entries_wf(es) && i <= v@.len() && v@.skip(i as int) == enc_list_from(
                es,
                0,
                entry_encoder(),
            ) + rest ==> (r matches Some(p) && p.0@.map_values(|e: FileEntry| entry_model(e)) == es
                && p.1 == i + enc_list_from(es, 0, entry_encoder()).len()),
        r matches Some(p) ==> i < p.1 <= v@.len(),
        r matches Some(p) ==> forall|k: int| 0 <= k < p.0@.len() ==> (#[trigger] p.0@[k]).wf(),
    decreases v@.len() - i,
{
    let ghost f = entry_encoder();
    proof {
        assert forall|es: Seq<EntryM>, rest: Seq<char>|
            entries_wf(es) && i <= v@.len() && v@.skip(i as int) == enc_list_from(es, 0, f) + rest
            implies v@.len() > i && (es.len() > 0 ==> v@[i as int] == '{') && (es.len() == 0
            ==> v@[i as int] == ']') by {
            if es.len() > 0 {
                assert(f(es[0]) == enc_entry(es[0]));
                assert(enc_entry(es[0])[0] == '{');
                lemma_list_head_char(v@, i as int, es, f, rest, '{');
            } else {
                lemma_list_head_char(v@, i as int, es, f, rest, ']');
            }
        }
    }
    if i < v.len() && v[i] == ']' {
        let out: Vec<FileEntry> = Vec::new();
        proof {
            assert(out@.map_values(|e: FileEntry| entry_model(e)) =~= Seq::<EntryM>::empty());
        }
        return Some((out, i + 1));
    }
    let (head, j1) = match r_entry(v, i) {
        Some(p) => p,
        None => {
            proof {
                assert forall|es: Seq<EntryM>, rest: Seq<char>|
                    entries_wf(es) && i <= v@.len() && v@.skip(i as int) == enc_list_from(es, 0, f)
                        + rest implies false by {
                    lemma_entries_step(v@, i as int, es, rest);
                }
            }
            return None;
        },
    };
    let (mut tail_vec, j2) = match r_entries(v, j1) {
        Some(p) => p,
        None => {
            proof {
                assert forall|es: Seq<EntryM>, rest: Seq<char>|
                    entries_wf(es) && i <= v@.len() && v@.skip(i as int) == enc_list_from(es, 0, f)
                        + rest implies false by {
                    lemma_entries_step(v@, i as int, es, rest);
                    lemma_skip_concat(
                        v@,
                        i as int,
                        enc_entry(es[0]),
                        enc_list_from(es.skip(1), 0, f) + rest,
                    );
                }
            }
            return None;
        },
    };
    let ghost tail_models = tail_vec@.map_values(|e: FileEntry| entry_model(e));
    let ghost before_insert = tail_vec@;
    tail_vec.insert(0, head);
    proof {
        assert forall|es: Seq<EntryM>, rest: Seq<char>|
            entries_wf(es) && i <= v@.len() && v@.skip(i as int) == enc_list_from(es, 0, f) + rest
            implies tail_vec@.map_values(|e: FileEntry| entry_model(e)) == es && j2 == i
            + enc_list_from(es, 0, f).len() by {
            lemma_entries_step(v@, i as int, es, rest);
            lemma_skip_concat(
                v@,
                i as int,
                enc_entry(es[0]),
                enc_list_from(es.skip(1), 0, f) + rest,
            );
            assert(tail_models == es.skip(1));
            let mapped = tail_vec@.map_values(|e: FileEntry| entry_model(e));
            assert(mapped.len() == es.len());
            assert forall|k: int| 0 <= k < es.len() implies mapped[k] == es[k] by {
                if k == 0 {
                    assert(tail_vec@[0] == head);
                } else {
                    assert(tail_vec@[k] == before_insert[k - 1]);
                    assert(tail_models[k - 1] == es.skip(1)[k - 1]);
                }
            }
            assert(mapped =~= es);
        }
        assert forall|k: int| 0 <= k < tail_vec@.len() implies (#[trigger] tail_vec@[k]).wf() by {
            if k > 0 {
                assert(tail_vec@[k] == before_insert[k - 1]);
            }
        }
    }
    Some((tail_vec, j2))
}

/// What follows a folder's entry list: the two flags and the closing
/// brace, then whatever comes after the folder.
pub open spec fn folder_tail(f: FolderM, rest: Seq<char>) -> Seq<char> {
    seq![','] + (enc_bool(f.expanded) + (seq![','] + (enc_bool(f.to_be_deleted) + (seq!['}']
        + rest))))
}

/// Where an encoded folder stands at `i`, its head parses: the brace,
/// the path, and the bracket that opens its entry list.
pub proof fn lemma_folder_head(s: Seq<char>, i: int, f: FolderM, rest: Seq<char>)
    requires
        0 <= i <= s.len(),
        folder_m_wf(f),
        s.skip(i) == enc_folder(f) + rest,
    ensures
        ({
            let jp = i + 1 + enc_str(f.path).len();
            &&& i < s.len() && s[i] == '{'
            &&& p_str(s, i + 1) == Some((f.path, jp))
            &&& jp < s.len() && s[jp] == ','
            &&& jp + 1 < s.len() && s[jp + 1] == '['
            &&& jp + 2 <= s.len() && s.skip(jp + 2) == enc_list_from(
                f.files,
                0,
                entry_encoder(),
            ) + folder_tail(f, rest)
            &&& i + enc_folder(f).len() == jp + 2 + enc_list_from(
                f.files,
                0,
                entry_encoder(),
            ).len() + folder_tail(f, rest).len() - rest.len()
        }),
{
    let fe = entry_encoder();
    let el = enc_list_from(f.files, 0, fe);
    let a0 = seq!['{'];
    let a1 = a0 + enc_str(f.path);
    let a2 = a1 + seq![','];
    let a3 = a2 + enc_list(f.files, fe);
    let a4 = a3 + seq![','];
    let a5 = a4 + enc_bool(f.expanded);
    let a6 = a5 + seq![','];
    let a7 = a6 + enc_bool(f.to_be_deleted);
    assert(enc_folder(f) == a7 + seq!['}']);
    let r1 = seq!['}'] + rest;
    lemma_concat_assoc(a7, seq!['}'], rest);
    let r2 = enc_bool(f.to_be_deleted) + r1;
    lemma_concat_assoc(a6, enc_bool(f.to_be_deleted), r1);
    let r3 = seq![','] + r2;
    lemma_concat_assoc(a5, seq![','], r2);
    let r4 = enc_bool(f.expanded) + r3;
    lemma_concat_assoc(a4, enc_bool(f.expanded), r3);
    let r5 = seq![','] + r4;
    lemma_concat_assoc(a3, seq![','], r4);
    let r6 = enc_list(f.files, fe) + r5;
    lemma_concat_assoc(a2, enc_list(f.files, fe), r5);
    let r7 = seq![','] + r6;
    lemma_concat_assoc(a1, seq![','], r6);
    let r8 = enc_str(f.path) + r7;
    lemma_concat_assoc(a0, enc_str(f.path), r7);
    assert(s.skip(i) == a0 + r8);
    lemma_skip_concat(s, i, a0, r8);
    assert(s[i] == s.skip(i)[0]);
    lemma_p_str(s, i + 1, f.path, r7);
    lemma_skip_concat(s, i + 1, enc_str(f.path), r7);
    let jp = i + 1 + enc_str(f.path).len();
    assert(s[jp] == s.skip(jp)[0]);
    lemma_skip_concat(s, jp, seq![','], r6);
    assert(enc_list(f.files, fe) + r5 =~= seq!['['] + (el + r5));
    assert(s[jp + 1] == s.skip(jp + 1)[0]);
    lemma_skip_concat(s, jp + 1, seq!['['], el + r5);
    lemma_skip_concat(s, jp + 2, el, r5);
    assert(r5 == folder_tail(f, rest));
}

/// Where a folder's tail stands at `jt`, its flags and closing brace
/// parse at their places.
pub proof fn lemma_folder_tail(s: Seq<char>, jt: int, f: FolderM, rest: Seq<char>)
    requires
        0 <= jt <= s.len(),
        s.skip(jt) == folder_tail(f, rest),
    ensures
        ({
            let j1 = jt + 2;
            let j2 = j1 + 2;
            &&& jt < s.len() && s[jt] == ','
            &&& p_bool(s, jt + 1) == Some((f.expanded, j1))
            &&& j1 < s.len() && s[j1] == ','
            &&& p_bool(s, j1 + 1) == Some((f.to_be_deleted, j2))
            &&& j2 < s.len() && s[j2] == '}'
            &&& j2 + 1 <= s.len()
            &&& j2 + 1 == jt + folder_tail(f, rest).len() - rest.len()
        }),
{
    let r1 = seq!['}'] + rest;
    let r2 = enc_bool(f.to_be_deleted) + r1;
    let r3 = seq![','] + r2;
    let r4 = enc_bool(f.expanded) + r3;
    assert(s.skip(jt).len() == s.len() - jt);
    assert(s.skip(jt) == seq![','] + r4);
    assert(s[jt] == s.skip(jt)[0]);
    lemma_skip_concat(s, jt, seq![','], r4);
    lemma_p_bool(s, jt + 1, f.expanded, r3);
    lemma_skip_concat(s, jt + 1, enc_bool(f.expanded), r3);
    let j1 = jt + 2;
    assert(s[j1] == s.skip(j1)[0]);
    lemma_skip_concat(s, j1, seq![','], r2);
    lemma_p_bool(s, j1 + 1, f.to_be_deleted, r1);
    lemma_skip_concat(s, j1 + 1, enc_bool(f.to_be_deleted), r1);
    let j2 = j1 + 2;
    assert(s[j2] == s.skip(j2)[0]);
    lemma_skip_concat(s, j2, seq!['}'], rest);
}

/// Reads one encoded folder.
#[verifier::rlimit(100)]
fn r_folder(v: &Vec<char>, i: usize) -> (r: Option<(Folder, usize)>)
    ensures
        forall|f: FolderM, rest: Seq<char>|
            folder_m_wf(f) && i <= v@.len() && v@.skip(i as int) == enc_folder(f) + rest ==> (r
                matches Some(p) && folder_model(p.0) == f && p.1 == i + enc_folder(f).len()),
        r matches Some(p) ==> i < p.1 <= v@.len() && p.0.wf(),
{
    let b0 = match r_char(v, i, '{') {
        Some(j) => j,
        None => {
            proof {
                assert forall|f: FolderM, rest: Seq<char>|
                    folder_m_wf(f) && i <= v@.len() && v@.skip(i as int) == enc_folder(f) + rest
                    implies false by {
                    lemma_folder_head(v@, i as int, f, rest);
                }
            }
            return None;
        },
    };
    let (path_text, b1) = match r_str(v, b0) {
        Some(p) => p,
        None => {
            proof {
                assert forall|f: FolderM, rest: Seq<char>|
                    folder_m_wf(f) && i <= v@.len() && v@.skip(i as int) == enc_folder(f) + rest
                    implies false by {
                    lemma_folder_head(v@, i as int, f, rest);
                }
            }
            return None;
        },
    };
    let b2 = match r_char(v, b1, ',') {
        Some(j) => j,
        None => {
            proof {
                assert forall|f: FolderM, rest: Seq<char>|
                    folder_m_wf(f) && i <= v@.len() && v@.skip(i as int) == enc_folder(f) + rest
                    implies false by {
                    lemma_folder_head(v@, i as int, f, rest);
                }
            }
            return None;
        },
    };
    let b3 = match r_char(v, b2, '[') {
        Some(j) => j,
        None => {
            proof {
                assert forall|f: FolderM, rest: Seq<char>|
                    folder_m_wf(f) && i <= v@.len() && v@.skip(i as int) == enc_folder(f) + rest
                    implies false by {
                    lemma_folder_head(v@, i as int, f, rest);
                }
            }
            return None;
        },
    };
    let (files, b4) = match r_entries(v, b3) {
        Some(p) => p,
        None => {
            proof {
                assert forall|f: FolderM, rest: Seq<char>|
                    folder_m_wf(f) && i <= v@.len() && v@.skip(i as int) == enc_folder(f) + rest
                    implies false by {
                    lemma_folder_head(v@, i as int, f, rest);
                }
            }
            return None;
        },
    };
    let (expanded, b5) = match r_bool(v, match r_char(v, b4, ',') {
        Some(j) => j,
        None => {
            proof {
                assert forall|f: FolderM, rest: Seq<char>|
                    folder_m_wf(f) && i <= v@.len() && v@.skip(i as int) == enc_folder(f) + rest
                    implies false by {
                    lemma_folder_head(v@, i as int, f, rest);
                    let jp = i + 1 + enc_str(f.path).len();
                    lemma_skip_concat(
                        v@,
                        jp + 2,
                        enc_list_from(f.files, 0, entry_encoder()),
                        folder_tail(f, rest),
                    );
                    lemma_folder_tail(
                        v@,
                        jp + 2 + enc_list_from(f.files, 0, entry_encoder()).len(),
                        f,
                        rest,
                    );
                }
            }
            return None;
        },
    }) {
        Some(p) => p,
        None => {
            proof {
                assert forall|f: FolderM, rest: Seq<char>|
                    folder_m_wf(f) && i <= v@.len() && v@.skip(i as int) == enc_folder(f) + rest
                    implies false by {
                    lemma_folder_head(v@, i as int, f, rest);
                    let jp = i + 1 + enc_str(f.path).len();
                    lemma_skip_concat(
                        v@,
                        jp + 2,
                        enc_list_from(f.files, 0, entry_encoder()),
                        folder_tail(f, rest),
                    );
                    lemma_folder_tail(
                        v@,
                        jp + 2 + enc_list_from(f.files, 0, entry_encoder()).len(),
                        f,
                        rest,
                    );
                }
            }
            return None;
        },
    };
    let b6 = match r_char(v, b5, ',') {
        Some(j) => j,
        None => {
            proof {
                assert forall|f: FolderM, rest: Seq<char>|
                    folder_m_wf(f) && i <= v@.len() && v@.skip(i as int) == enc_folder(f) + rest
                    implies false by {
                    lemma_folder_head(v@, i as int, f, rest);
                    let jp = i + 1 + enc_str(f.path).len();
                    lemma_skip_concat(
                        v@,
                        jp + 2,
                        enc_list_from(f.files, 0, entry_encoder()),
                        folder_tail(f, rest),
                    );
                    lemma_folder_tail(
                        v@,
                        jp + 2 + enc_list_from(f.files, 0, entry_encoder()).len(),
                        f,
                        rest,
                    );
                }
            }
            return None;
        },
    };
    let (deleted, b7) = match r_bool(v, b6) {
        Some(p) => p,
        None => {
            proof {
                assert forall|f: FolderM, rest: Seq<char>|
                    folder_m_wf(f) && i <= v@.len() && v@.skip(i as int) == enc_folder(f) + rest
                    implies false by {
                    lemma_folder_head(v@, i as int, f, rest);
                    let jp = i + 1 + enc_str(f.path).len();
                    lemma_skip_concat(
                        v@,
                        jp + 2,
                        enc_list_from(f.files, 0, entry_encoder()),
                        folder_tail(f, rest),
                    );
                    lemma_folder_tail(
                        v@,
                        jp + 2 + enc_list_from(f.files, 0, entry_encoder()).len(),
                        f,
                        rest,
                    );
                }
            }
            return None;
        },
    };
    let b8 = match r_char(v, b7, '}') {
        Some(j) => j,
        None => {
            proof {
                assert forall|f: FolderM, rest: Seq<char>|
                    folder_m_wf(f) && i <= v@.len() && v@.skip(i as int) == enc_folder(f) + rest
                    implies false by {
                    lemma_folder_head(v@, i as int, f, rest);
                    let jp = i + 1 + enc_str(f.path).len();
                    lemma_skip_concat(
                        v@,
                        jp + 2,
                        enc_list_from(f.files, 0, entry_encoder()),
                        folder_tail(f, rest),
                    );
                    lemma_folder_tail(
                        v@,
                        jp + 2 + enc_list_from(f.files, 0, entry_encoder()).len(),
                        f,
                        rest,
                    );
                }
            }
            return None;
        },
    };
    let out = Folder { path: path_text, files, expanded, to_be_deleted: deleted };
    proof {
        assert forall|f: FolderM, rest: Seq<char>|
            folder_m_wf(f) && i <= v@.len() && v@.skip(i as int) == enc_folder(f) + rest
            implies folder_model(out) == f && b8 == i + enc_folder(f).len() by {
            lemma_folder_head(v@, i as int, f, rest);
            let jp = i + 1 + enc_str(f.path).len();
            lemma_skip_concat(
                v@,
                jp + 2,
                enc_list_from(f.files, 0, entry_encoder()),
                folder_tail(f, rest),
            );
            lemma_folder_tail(
                v@,
                jp + 2 + enc_list_from(f.files, 0, entry_encoder()).len(),
                f,
                rest,
            );
        }
    }
    Some((out, b8))
}

/// A folder list the codec round-trips.
pub open spec fn folders_wf(fs: Seq<FolderM>) -> bool {
    forall|k: int| 0 <= k < fs.len() ==> folder_m_wf(#[trigger] fs[k])
}

/// Where an encoded, non-empty folder list stands at `i`, its first
/// folder stands at `i` and the remaining list follows it.
pub proof fn lemma_folders_step(s: Seq<char>, i: int, fs: Seq<FolderM>, rest: Seq<char>)
    requires
        0 <= i <= s.len(),
        folders_wf(fs),
        fs.len() > 0,
        s.skip(i) == enc_list_from(fs, 0, folder_encoder()) + rest,
    ensures
        s.skip(i) == enc_folder(fs[0]) + (enc_list_from(fs.skip(1), 0, folder_encoder()) + rest),
        folders_wf(fs.skip(1)),
        i + enc_list_from(fs, 0, folder_encoder()).len() == i + enc_folder(fs[0]).len()
            + enc_list_from(fs.skip(1), 0, folder_encoder()).len(),
{
    let f = folder_encoder();
    assert(enc_list_from(fs, 0, f) == f(fs[0]) + enc_list_from(fs, 1, f));
    lemma_enc_list_shift(fs, 1, f);
    assert(enc_list_from(fs, 0, f) + rest =~= enc_folder(fs[0]) + (enc_list_from(
        fs.skip(1),
        0,
        f,
    ) + rest));
    assert forall|k: int| 0 <= k < fs.skip(1).len() implies folder_m_wf(
        #[trigger] fs.skip(1)[k],
    ) by {
        assert(fs.skip(1)[k] == fs[k + 1]);
    }
}

/// Reads one encoded folder list.
#[verifier::rlimit(100)]
fn r_folders(v: &Vec<char>, i: usize) -> (r: Option<(Vec<Folder>, usize)>)
    ensures
        forall|fs: Seq<FolderM>, rest: Seq<char>|
            folders_wf(fs) && i <= v@.len() && v@.skip(i as int) == enc_list_from(
                fs,
                0,
                folder_encoder(),
            ) + rest ==> (r matches Some(p) && p.0@.map_values(|fo: Folder| folder_model(fo)) == fs
                && p.1 == i + enc_list_from(fs, 0, folder_encoder()).len()),
        r matches Some(p) ==> i < p.1 <= v@.len(),
        r matches Some(p) ==> forall|k: int| 0 <= k < p.0@.len() ==> (#[trigger] p.0@[k]).wf(),
    decreases v@.len() - i,
{
    let ghost f = folder_encoder();
    proof {
        assert forall|fs: Seq<FolderM>, rest: Seq<char>|
            folders_wf(fs) && i <= v@.len() && v@.skip(i as int) == enc_list_from(fs, 0, f) + rest
            implies v@.len() > i && (fs.len() > 0 ==> v@[i as int] == '{') && (fs.len() == 0
            ==> v@[i as int] == ']') by {
            if fs.len() > 0 {
                assert(f(fs[0]) == enc_folder(fs[0]));
                assert(enc_folder(fs[0])[0] == '{');
                lemma_list_head_char(v@, i as int, fs, f, rest, '{');
            } else {
                lemma_list_head_char(v@, i as int, fs, f, rest, ']');
            }
        }
    }
    if i < v.len() && v[i] == ']' {
        let out: Vec<Folder> = Vec::new();
        proof {
            assert(out@.map_values(|fo: Folder| folder_model(fo)) =~= Seq::<FolderM>::empty());
        }
        return Some((out, i + 1));
    }
    let (head, j1) = match r_folder(v, i) {
        Some(p) => p,
        None => {
            proof {
                assert forall|fs: Seq<FolderM>, rest: Seq<char>|
                    folders_wf(fs) && i <= v@.len() && v@.skip(i as int) == enc_list_from(fs, 0, f)
                        + rest implies false by {
                    lemma_folders_step(v@, i as int, fs, rest);
                }
            }
            return None;
        },
    };
    let (mut tail_vec, j2) = match r_folders(v, j1) {
        Some(p) => p,
        None => {
            proof {
                assert forall|fs: Seq<FolderM>, rest: Seq<char>|
                    folders_wf(fs) && i <= v@.len() && v@.skip(i as int) == enc_list_from(fs, 0, f)
                        + rest implies false by {
                    lemma_folders_step(v@, i as int, fs, rest);
                    lemma_skip_concat(
                        v@,
                        i as int,
                        enc_folder(fs[0]),
                        enc_list_from(fs.skip(1), 0, f) + rest,
                    );
                }
            }
            return None;
        },
    };
    let ghost tail_models = tail_vec@.map_values(|fo: Folder| folder_model(fo));
    let ghost before_insert = tail_vec@;
    tail_vec.insert(0, head);
    proof {
        assert forall|fs: Seq<FolderM>, rest: Seq<char>|
            folders_wf(fs) && i <= v@.len() && v@.skip(i as int) == enc_list_from(fs, 0, f) + rest
            implies tail_vec@.map_values(|fo: Folder| folder_model(fo)) == fs && j2 == i
            + enc_list_from(fs, 0, f).len() by {
            lemma_folders_step(v@, i as int, fs, rest);
            lemma_skip_concat(
                v@,
                i as int,
                enc_folder(fs[0]),
                enc_list_from(fs.skip(1), 0, f) + rest,
            );
            assert(tail_models == fs.skip(1));
            let mapped = tail_vec@.map_values(|fo: Folder| folder_model(fo));
            assert(mapped.len() == fs.len());
            assert forall|k: int| 0 <= k < fs.len() implies mapped[k] == fs[k] by {
                if k == 0 {
                    assert(tail_vec@[0] == head);
                } else {
                    assert(tail_vec@[k] == before_insert[k - 1]);
                    assert(tail_models[k - 1] == fs.skip(1)[k - 1]);
                }
            }
            assert(mapped =~= fs);
        }
        assert forall|k: int| 0 <= k < tail_vec@.len() implies (#[trigger] tail_vec@[k]).wf() by {
            if k > 0 {
                assert(tail_vec@[k] == before_insert[k - 1]);
            }
        }
    }
    Some((tail_vec, j2))
}

/// What follows a session's folder list: the search phrase, the four
/// viewport bounds, and the closing brace.
pub open spec fn session_tail(m: SessionM, rest: Seq<char>) -> Seq<char> {
    seq![','] + (enc_str(m.search_phrase) + (seq![','] + (dec_digits(m.plot_dims.x0 as nat) + (
    seq![','] + (dec_digits(m.plot_dims.x1 as nat) + (seq![','] + (dec_digits(
        m.plot_dims.y0 as nat,
    ) + (seq![','] + (dec_digits(m.plot_dims.y1 as nat) + (seq!['}'] + rest))))))))))
}

/// Where an encoded session stands at `i`, its head parses: the brace
/// and the bracket that opens its folder list.
pub proof fn lemma_session_head(s: Seq<char>, i: int, m: SessionM, rest: Seq<char>)
    requires
        0 <= i <= s.len(),
        session_m_wf(m),
        s.skip(i) == enc_session(m) + rest,
    ensures
        i < s.len() && s[i] == '{',
        i + 1 < s.len() && s[i + 1] == '[',
        i + 2 <= s.len() && s.skip(i + 2) == enc_list_from(m.folders, 0, folder_encoder())
            + session_tail(m, rest),
        i + enc_session(m).len() == i + 2 + enc_list_from(m.folders, 0, folder_encoder()).len()
            + session_tail(m, rest).len() - rest.len(),
{
    let fe = folder_encoder();
    let el = enc_list_from(m.folders, 0, fe);
    let a0 = seq!['{'];
    let a1 = a0 + enc_list(m.folders, fe);
    let a2 = a1 + seq![','];
    let a3 = a2 + enc_str(m.search_phrase);
    let a4 = a3 + seq![','];
    let a5 = a4 + dec_digits(m.plot_dims.x0 as nat);
    let a6 = a5 + seq![','];
    let a7 = a6 + dec_digits(m.plot_dims.x1 as nat);
    let a8 = a7 + seq![','];
    let a9 = a8 + dec_digits(m.plot_dims.y0 as nat);
    let a10 = a9 + seq![','];
    let a11 = a10 + dec_digits(m.plot_dims.y1 as nat);
    assert(enc_session(m) == a11 + seq!['}']);
    let r1 = seq!['}'] + rest;
    lemma_concat_assoc(a11, seq!['}'], rest);
    let r2 = dec_digits(m.plot_dims.y1 as nat) + r1;
    lemma_concat_assoc(a10, dec_digits(m.plot_dims.y1 as nat), r1);
    let r3 = seq![','] + r2;
    lemma_concat_assoc(a9, seq![','], r2);
    let r4 = dec_digits(m.plot_dims.y0 as nat) + r3;
    lemma_concat_assoc(a8, dec_digits(m.plot_dims.y0 as nat), r3);
    let r5 = seq![','] + r4;
    lemma_concat_assoc(a7, seq![','], r4);
    let r6 = dec_digits(m.plot_dims.x1 as nat) + r5;
    lemma_concat_assoc(a6, dec_digits(m.plot_dims.x1 as nat), r5);
    let r7 = seq![','] + r6;
    lemma_concat_assoc(a5, seq![','], r6);
    let r8 = dec_digits(m.plot_dims.x0 as nat) + r7;
    lemma_concat_assoc(a4, dec_digits(m.plot_dims.x0 as nat), r7);
    let r9 = seq![','] + r8;
    lemma_concat_assoc(a3, seq![','], r8);
    let r10 = enc_str(m.search_phrase) + r9;
    lemma_concat_assoc(a2, enc_str(m.search_phrase), r9);
    let r11 = seq![','] + r10;
    lemma_concat_assoc(a1, seq![','], r10);
    let r12 = enc_list(m.folders, fe) + r11;
    lemma_concat_assoc(a0, enc_list(m.folders, fe), r11);
    assert(s.skip(i) == a0 + r12);
    lemma_skip_concat(s, i, a0, r12);
    assert(s[i] == s.skip(i)[0]);
    assert(enc_list(m.folders, fe) + r11 =~= seq!['['] + (el + r11));
    assert(s[i + 1] == s.skip(i + 1)[0]);
    lemma_skip_concat(s, i + 1, seq!['['], el + r11);
    lemma_skip_concat(s, i + 2, el, r11);
    assert(r11 == session_tail(m, rest));
}

/// Where a session's tail stands at `jt`, each remaining piece parses
/// at its place.
#[verifier::rlimit(100)]
pub proof fn lemma_session_tail(s: Seq<char>, jt: int, m: SessionM, rest: Seq<char>)
    requires
        0 <= jt <= s.len(),
        session_m_wf(m),
        s.skip(jt) == session_tail(m, rest),
    ensures
        ({
            let j1 = jt + 1 + enc_str(m.search_phrase).len();
            let j2 = j1 + 1 + dec_digits(m.plot_dims.x0 as nat).len();
            let j3 = j2 + 1 + dec_digits(m.plot_dims.x1 as nat).len();
            let j4 = j3 + 1 + dec_digits(m.plot_dims.y0 as nat).len();
            let j5 = j4 + 1 + dec_digits(m.plot_dims.y1 as nat).len();
            &&& jt < s.len() && s[jt] == ','
            &&& p_str(s, jt + 1) == Some((m.search_phrase, j1))
            &&& j1 < s.len() && s[j1] == ','
            &&& p_u64(s, j1 + 1) == Some((m.plot_dims.x0 as u64, j2))
            &&& j2 < s.len() && s[j2] == ','
            &&& p_u64(s, j2 + 1) == Some((m.plot_dims.x1 as u64, j3))
            &&& j3 < s.len() && s[j3] == ','
            &&& p_u64(s, j3 + 1) == Some((m.plot_dims.y0 as u64, j4))
            &&& j4 < s.len() && s[j4] == ','
            &&& p_u64(s, j4 + 1) == Some((m.plot_dims.y1 as u64, j5))
            &&& j5 < s.len() && s[j5] == '}'
            &&& j5 + 1 <= s.len()
            &&& j5 + 1 == jt + session_tail(m, rest).len() - rest.len()
        }),
{
    let r1 = seq!['}'] + rest;
    let r2 = dec_digits(m.plot_dims.y1 as nat) + r1;
    let r3 = seq![','] + r2;
    let r4 = dec_digits(m.plot_dims.y0 as nat) + r3;
    let r5 = seq![','] + r4;
    let r6 = dec_digits(m.plot_dims.x1 as nat) + r5;
    let r7 = seq![','] + r6;
    let r8 = dec_digits(m.plot_dims.x0 as nat) + r7;
    let r9 = seq![','] + r8;
    let r10 = enc_str(m.search_phrase) + r9;
    assert(s.skip(jt).len() == s.len() - jt);
    assert(s.skip(jt) == seq![','] + r10);
    assert(s[jt] == s.skip(jt)[0]);
    lemma_skip_concat(s, jt, seq![','], r10);
    lemma_p_str(s, jt + 1, m.search_phrase, r9);
    lemma_skip_concat(s, jt + 1, enc_str(m.search_phrase), r9);
    let j1 = jt + 1 + enc_str(m.search_phrase).len();
    assert(s[j1] == s.skip(j1)[0]);
    lemma_skip_concat(s, j1, seq![','], r8);
    assert(!is_digit(',') && !is_digit('}')) by {
        assert(',' as int == 44 && '}' as int == 125);
    }
    lemma_p_u64(s, j1 + 1, m.plot_dims.x0 as u64, r7);
    lemma_skip_concat(s, j1 + 1, dec_digits(m.plot_dims.x0 as nat), r7);
    let j2 = j1 + 1 + dec_digits(m.plot_dims.x0 as nat).len();
    assert(s[j2] == s.skip(j2)[0]);
    lemma_skip_concat(s, j2, seq![','], r6);
    lemma_p_u64(s, j2 + 1, m.plot_dims.x1 as u64, r5);
    lemma_skip_concat(s, j2 + 1, dec_digits(m.plot_dims.x1 as nat), r5);
    let j3 = j2 + 1 + dec_digits(m.plot_dims.x1 as nat).len();
    assert(s[j3] == s.skip(j3)[0]);
    lemma_skip_concat(s, j3, seq![','], r4);
    lemma_p_u64(s, j3 + 1, m.plot_dims.y0 as u64, r3);
    lemma_skip_concat(s, j3 + 1, dec_digits(m.plot_dims.y0 as nat), r3);
    let j4 = j3 + 1 + dec_digits(m.plot_dims.y0 as nat).len();
    assert(s[j4] == s.skip(j4)[0]);
    lemma_skip_concat(s, j4, seq![','], r2);
    lemma_p_u64(s, j4 + 1, m.plot_dims.y1 as u64, r1);
    lemma_skip_concat(s, j4 + 1, dec_digits(m.plot_dims.y1 as nat), r1);
    let j5 = j4 + 1 + dec_digits(m.plot_dims.y1 as nat).len();
    assert(s[j5] == s.skip(j5)[0]);
    lemma_skip_concat(s, j5, seq!['}'], rest);
}

/// Message reported when a snapshot cannot be read back.
pub open spec fn malformed_snapshot_message() -> Seq<char> {
    "ERROR: could not read session snapshot"@
}

/// Writes the session's persistent fields as one snapshot text.
#[verifier::rlimit(100)]
pub fn save_session(app: &App) -> (text: String)
    requires
        app.wf(),
    ensures
        text@ == enc_session(session_model(*app)),
        session_m_wf(session_model(*app)),
{
    let ghost f = folder_encoder();
    let ghost m = session_model(*app);
    let mut out = String::new();
    let ghost start = out@;
    let ghost mut acc: Seq<char> = Seq::empty();
    w_char(&mut out, '{');
    proof {
        assert(Seq::<char>::empty() + seq!['{'] =~= seq!['{']);
        assert(start =~= Seq::<char>::empty());
        acc = seq!['{'];
        assert(out@ == acc);
    }
    w_char(&mut out, '[');
    let ghost mid = out@;
    let n = app.folders.len();
    let mut i: usize = 0;
    proof {
        assert(m.folders.len() == n);
        assert(mid == acc + seq!['[']);
        assert(enc_list_prefix(m.folders, 0, f) =~= Seq::<char>::empty());
        assert(mid + Seq::<char>::empty() =~= mid);
    }
    while i < n
        invariant
            n == app.folders@.len(),
            app.wf(),
            m == session_model(*app),
            m.folders.len() == n,
            f == folder_encoder(),
            i <= n,
            mid == acc + seq!['['],
            acc == seq!['{'],
            out@ == mid + enc_list_prefix(m.folders, i as int, f),
            forall|k: int| 0 <= k < i ==> folder_m_wf(#[trigger] m.folders[k]),
        decreases n - i,
    {
        proof {
            assert(app.folders@[i as int].wf());
            assert(m.folders[i as int] == folder_model(app.folders@[i as int]));
        }
        w_folder(&mut out, &app.folders[i]);
        proof {
            lemma_concat_assoc(
                mid,
                enc_list_prefix(m.folders, i as int, f),
                f(m.folders[i as int]),
            );
        }
        i = i + 1;
    }
    proof {
        lemma_enc_list_split(m.folders, m.folders.len() as int, f);
        assert(enc_list_from(m.folders, m.folders.len() as int, f) == seq![']']);
    }
    w_char(&mut out, ']');
    proof {
        assert(out@ == (mid + enc_list_prefix(m.folders, m.folders.len() as int, f)) + seq![']']);
        lemma_concat_assoc(mid, enc_list_prefix(m.folders, m.folders.len() as int, f), seq![']']);
        assert(out@ == mid + enc_list_from(m.folders, 0, f));
        lemma_concat_assoc(acc, seq!['['], enc_list_from(m.folders, 0, f));
        acc = acc + (seq!['['] + enc_list_from(m.folders, 0, f));
        assert(out@ == acc);
        assert(seq!['['] + enc_list_from(m.folders, 0, f) == enc_list(m.folders, f));
        assert(acc == seq!['{'] + enc_list(m.folders, f));
    }
    w_char(&mut out, ',');
    proof {
        acc = acc + seq![','];
    }
    w_str_field(&mut out, app.search_phrase.as_str());
    proof {
        acc = acc + enc_str(m.search_phrase);
    }
    w_char(&mut out, ',');
    proof {
        acc = acc + seq![','];
    }
    w_u64(&mut out, app.plot_dims.x0 as u64);
    proof {
        acc = acc + dec_digits(m.plot_dims.x0 as nat);
    }
    w_char(&mut out, ',');
    proof {
        acc = acc + seq![','];
    }
    w_u64(&mut out, app.plot_dims.x1 as u64);
    proof {
        acc = acc + dec_digits(m.plot_dims.x1 as nat);
    }
    w_char(&mut out, ',');
    proof {
        acc = acc + seq![','];
    }
    w_u64(&mut out, app.plot_dims.y0 as u64);
    proof {
        acc = acc + dec_digits(m.plot_dims.y0 as nat);
    }
    w_char(&mut out, ',');
    proof {
        acc = acc + seq![','];
    }
    w_u64(&mut out, app.plot_dims.y1 as u64);
    proof {
        acc = acc + dec_digits(m.plot_dims.y1 as nat);
    }
    w_char(&mut out, '}');
    proof {
        acc = acc + seq!['}'];
        assert(out@ == acc);
        assert(acc == enc_session(m));
    }
    out
}

/// Builds `malformed_snapshot_message`.
fn build_malformed_error() -> (e: String)
    ensures
        e@ == malformed_snapshot_message(),
{
    String::from_str("ERROR: could not read session snapshot")
}

/// Reads a snapshot text back into a session. Any text that
/// `save_session` wrote for a well-formed session reads back to that
/// session's persistent fields, with the transient fields at their
/// defaults; on any other text an error may be reported instead.
#[verifier::rlimit(100)]
pub fn load_session(text: &str) -> (r: Result<App, String>)
    ensures
        forall|m: SessionM|
            session_m_wf(m) && text@ == enc_session(m) ==> (r matches Ok(app) && session_model(app)
                == m),
        r matches Ok(app) ==> app.wf() && app.transients_default(),
        r matches Err(e) ==> e@ == malformed_snapshot_message(),
{
    let v = crate::text::str_to_char_vec(text);
    let ghost empty_rest = Seq::<char>::empty();
    let b0 = match r_char(&v, 0, '{') {
        Some(j) => j,
        None => {
            proof {
                assert forall|m: SessionM| session_m_wf(m) && text@ == enc_session(m)
                    implies false by {
                    assert(v@.skip(0) =~= enc_session(m) + empty_rest);
                    lemma_session_head(v@, 0, m, empty_rest);
                }
            }
            return Err(build_malformed_error());
        },
    };
    let b1 = match r_char(&v, b0, '[') {
        Some(j) => j,
        None => {
            proof {
                assert forall|m: SessionM| session_m_wf(m) && text@ == enc_session(m)
                    implies false by {
                    assert(v@.skip(0) =~= enc_session(m) + empty_rest);
                    lemma_session_head(v@, 0, m, empty_rest);
                }
            }
            return Err(build_malformed_error());
        },
    };
    let (folders, b2) = match r_folders(&v, b1) {
        Some(p) => p,
        None => {
            proof {
                assert forall|m: SessionM| session_m_wf(m) && text@ == enc_session(m)
                    implies false by {
                    assert(v@.skip(0) =~= enc_session(m) + empty_rest);
                    lemma_session_head(v@, 0, m, empty_rest);
                }
            }
            return Err(build_malformed_error());
        },
    };
    let b3 = match r_char(&v, b2, ',') {
        Some(j) => j,
        None => {
            proof {
                assert forall|m: SessionM| session_m_wf(m) && text@ == enc_session(m)
                    implies false by {
                    assert(v@.skip(0) =~= enc_session(m) + empty_rest);
                    lemma_session_head(v@, 0, m, empty_rest);
                    lemma_skip_concat(
                        v@,
                        2,
                        enc_list_from(m.folders, 0, folder_encoder()),
                        session_tail(m, empty_rest),
                    );
                    lemma_session_tail(
                        v@,
                        2 + enc_list_from(m.folders, 0, folder_encoder()).len() as int,
                        m,
                        empty_rest,
                    );
                }
            }
            return Err(build_malformed_error());
        },
    };
    let (search_text, b4) = match r_str(&v, b3) {
        Some(p) => p,
        None => {
            proof {
                assert forall|m: SessionM| session_m_wf(m) && text@ == enc_session(m)
                    implies false by {
                    assert(v@.skip(0) =~= enc_session(m) + empty_rest);
                    lemma_session_head(v@, 0, m, empty_rest);
                    lemma_skip_concat(
                        v@,
                        2,
                        enc_list_from(m.folders, 0, folder_encoder()),
                        session_tail(m, empty_rest),
                    );
                    lemma_session_tail(
                        v@,
                        2 + enc_list_from(m.folders, 0, folder_encoder()).len() as int,
                        m,
                        empty_rest,
                    );
                }
            }
            return Err(build_malformed_error());
        },
    };
    let b5 = match r_char(&v, b4, ',') {
        Some(j) => j,
        None => {
            proof {
                assert forall|m: SessionM| session_m_wf(m) && text@ == enc_session(m)
                    implies false by {
                    assert(v@.skip(0) =~= enc_session(m) + empty_rest);
                    lemma_session_head(v@, 0, m, empty_rest);
                    lemma_skip_concat(
                        v@,
                        2,
                        enc_list_from(m.folders, 0, folder_encoder()),
                        session_tail(m, empty_rest),
                    );
                    lemma_session_tail(
                        v@,
                        2 + enc_list_from(m.folders, 0, folder_encoder()).len() as int,
                        m,
                        empty_rest,
                    );
                }
            }
            return Err(build_malformed_error());
        },
    };
    let (x0, b6) = match r_u64(&v, b5) {
        Some(p) => p,
        None => {
            proof {
                assert forall|m: SessionM| session_m_wf(m) && text@ == enc_session(m)
                    implies false by {
                    assert(v@.skip(0) =~= enc_session(m) + empty_rest);
                    lemma_session_head(v@, 0, m, empty_rest);
                    lemma_skip_concat(
                        v@,
                        2,
                        enc_list_from(m.folders, 0, folder_encoder()),
                        session_tail(m, empty_rest),
                    );
                    lemma_session_tail(
                        v@,
                        2 + enc_list_from(m.folders, 0, folder_encoder()).len() as int,
                        m,
                        empty_rest,
                    );
                }
            }
            return Err(build_malformed_error());
        },
    };
    let b7 = match r_char(&v, b6, ',') {
        Some(j) => j,
        None => {
            proof {
                assert forall|m: SessionM| session_m_wf(m) && text@ == enc_session(m)
                    implies false by {
                    assert(v@.skip(0) =~= enc_session(m) + empty_rest);
                    lemma_session_head(v@, 0, m, empty_rest);
                    lemma_skip_concat(
                        v@,
                        2,
                        enc_list_from(m.folders, 0, folder_encoder()),
                        session_tail(m, empty_rest),
                    );
                    lemma_session_tail(
                        v@,
                        2 + enc_list_from(m.folders, 0, folder_encoder()).len() as int,
                        m,
                        empty_rest,
                    );
                }
            }
            return Err(build_malformed_error());
        },
    };
    let (x1, b8) = match r_u64(&v, b7) {
        Some(p) => p,
        None => {
            proof {
                assert forall|m: SessionM| session_m_wf(m) && text@ == enc_session(m)
                    implies false by {
                    assert(v@.skip(0) =~= enc_session(m) + empty_rest);
                    lemma_session_head(v@, 0, m, empty_rest);
                    lemma_skip_concat(
                        v@,
                        2,
                        enc_list_from(m.folders, 0, folder_encoder()),
                        session_tail(m, empty_rest),
                    );
                    lemma_session_tail(
                        v@,
                        2 + enc_list_from(m.folders, 0, folder_encoder()).len() as int,
                        m,
                        empty_rest,
                    );
                }
            }
            return Err(build_malformed_error());
        },
    };
    let b9 = match r_char(&v, b8, ',') {
        Some(j) => j,
        None => {
            proof {
                assert forall|m: SessionM| session_m_wf(m) && text@ == enc_session(m)
                    implies false by {
                    assert(v@.skip(0) =~= enc_session(m) + empty_rest);
                    lemma_session_head(v@, 0, m, empty_rest);
                    lemma_skip_concat(
                        v@,
                        2,
                        enc_list_from(m.folders, 0, folder_encoder()),
                        session_tail(m, empty_rest),
                    );
                    lemma_session_tail(
                        v@,
                        2 + enc_list_from(m.folders, 0, folder_encoder()).len() as int,
                        m,
                        empty_rest,
                    );
                }
            }
            return Err(build_malformed_error());
        },
    };
    let (y0, b10) = match r_u64(&v, b9) {
        Some(p) => p,
        None => {
            proof {
                assert forall|m: SessionM| session_m_wf(m) && text@ == enc_session(m)
                    implies false by {
                    assert(v@.skip(0) =~= enc_session(m) + empty_rest);
                    lemma_session_head(v@, 0, m, empty_rest);
                    lemma_skip_concat(
                        v@,
                        2,
                        enc_list_from(m.folders, 0, folder_encoder()),
                        session_tail(m, empty_rest),
                    );
                    lemma_session_tail(
                        v@,
                        2 + enc_list_from(m.folders, 0, folder_encoder()).len() as int,
                        m,
                        empty_rest,
                    );
                }
            }
            return Err(build_malformed_error());
        },
    };
    let b11 = match r_char(&v, b10, ',') {
        Some(j) => j,
        None => {
            proof {
                assert forall|m: SessionM| session_m_wf(m) && text@ == enc_session(m)
                    implies false by {
                    assert(v@.skip(0) =~= enc_session(m) + empty_rest);
                    lemma_session_head(v@, 0, m, empty_rest);
                    lemma_skip_concat(
                        v@,
                        2,
                        enc_list_from(m.folders, 0, folder_encoder()),
                        session_tail(m, empty_rest),
                    );
                    lemma_session_tail(
                        v@,
                        2 + enc_list_from(m.folders, 0, folder_encoder()).len() as int,
                        m,
                        empty_rest,
                    );
                }
            }
            return Err(build_malformed_error());
        },
    };
    let (y1, b12) = match r_u64(&v, b11) {
        Some(p) => p,
        None => {
            proof {
                assert forall|m: SessionM| session_m_wf(m) && text@ == enc_session(m)
                    implies false by {
                    assert(v@.skip(0) =~= enc_session(m) + empty_rest);
                    lemma_session_head(v@, 0, m, empty_rest);
                    lemma_skip_concat(
                        v@,
                        2,
                        enc_list_from(m.folders, 0, folder_encoder()),
                        session_tail(m, empty_rest),
                    );
                    lemma_session_tail(
                        v@,
                        2 + enc_list_from(m.folders, 0, folder_encoder()).len() as int,
                        m,
                        empty_rest,
                    );
                }
            }
            return Err(build_malformed_error());
        },
    };
    let b13 = match r_char(&v, b12, '}') {
        Some(j) => j,
        None => {
            proof {
                assert forall|m: SessionM| session_m_wf(m) && text@ == enc_session(m)
                    implies false by {
                    assert(v@.skip(0) =~= enc_session(m) + empty_rest);
                    lemma_session_head(v@, 0, m, empty_rest);
                    lemma_skip_concat(
                        v@,
                        2,
                        enc_list_from(m.folders, 0, folder_encoder()),
                        session_tail(m, empty_rest),
                    );
                    lemma_session_tail(
                        v@,
                        2 + enc_list_from(m.folders, 0, folder_encoder()).len() as int,
                        m,
                        empty_rest,
                    );
                }
            }
            return Err(build_malformed_error());
        },
    };
    if b13 != v.len() || x0 > 4294967295 || x1 > 4294967295 || y0 > 4294967295
        || y1 > 4294967295 {
        proof {
            assert forall|m: SessionM| session_m_wf(m) && text@ == enc_session(m)
                implies false by {
                assert(v@.skip(0) =~= enc_session(m) + empty_rest);
                lemma_session_head(v@, 0, m, empty_rest);
                lemma_skip_concat(
                    v@,
                    2,
                    enc_list_from(m.folders, 0, folder_encoder()),
                    session_tail(m, empty_rest),
                );
                lemma_session_tail(
                    v@,
                    2 + enc_list_from(m.folders, 0, folder_encoder()).len() as int,
                    m,
                    empty_rest,
                );
            }
        }
        return Err(build_malformed_error());
    }
    let app = App {
        folders,
        search_phrase: search_text,
        plot_dims: PlotDimensions {
            x0: x0 as u32,
            x1: x1 as u32,
            y0: y0 as u32,
            y1: y1 as u32,
        },
        errors: Vec::new(),
        acceleration: None,
        copied_csvoptions: None,
        color_idx: 0,
    };
    proof {
        assert forall|m: SessionM| session_m_wf(m) && text@ == enc_session(m)
            implies session_model(app) == m by {
            assert(v@.skip(0) =~= enc_session(m) + empty_rest);
            lemma_session_head(v@, 0, m, empty_rest);
            lemma_skip_concat(
                v@,
                2,
                enc_list_from(m.folders, 0, folder_encoder()),
                session_tail(m, empty_rest),
            );
            lemma_session_tail(
                v@,
                2 + enc_list_from(m.folders, 0, folder_encoder()).len() as int,
                m,
                empty_rest,
            );
            assert(app.folders@.map_values(|fo: Folder| folder_model(fo)) == m.folders);
        }
    }
    Ok(app)
}

} // verus!
