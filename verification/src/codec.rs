//! The codec: encoding a list of task entries as tab-separated lines and
//! decoding such text back into entries.

use crate::due::rfc3339_to_utc;
use crate::due::rfc3339_utc;
use crate::record::EntryView;
use crate::record::TaskEntry;
use crate::text::dec_rep;
use crate::text::dec_val;
use crate::text::is_u32_token;
use crate::text::join_strs;
use crate::text::join_with;
use crate::text::parse_u32;
use crate::text::split_on;
use crate::text::split_str;
use crate::text::strip_lead;
use crate::text::strip_lead_str;
use crate::text::strip_quotes;
use crate::text::strip_quotes_str;
use crate::text::u32_to_string;
use vstd::prelude::*;
use vstd::string::StrSliceExecFns;
use vstd::string::StringExecFns;

verus! {

/// Why a load failed: a data line with fewer than six columns, an id column
/// that is not a decimal number fitting a `u32`, or a due column that is
/// neither the dash sentinel nor RFC 3339 text.
#[derive(Debug, Clone, Copy, PartialEq, Eq, Structural)]
pub enum ParseError {
    MissingColumns,
    BadId,
    BadDueDate,
}

/// The dash sentinel that stands for an unset optional field.
pub open spec fn dash() -> Seq<char> {
    seq!['-']
}

/// An optional field's text: its value when set, else `unset`.
pub open spec fn opt_text(o: Option<Seq<char>>, unset: Seq<char>) -> Seq<char> {
    match o {
        Some(s) => s,
        None => unset,
    }
}

/// The fixed header line (without its newline).
pub open spec fn header_text() -> Seq<char> {
    "id\tproject\ttags\tdue date\ttitle\tdescription"@
}

/// One encoded data line for `e`, without the terminating newline: the six
/// columns, tab-separated, in order — decimal id, `:project` (dash when
/// unset), `+` with the comma-joined tags, the due text (dash when unset),
/// the quoted title, and the quoted description (empty when unset).
pub open spec fn encode_line(e: EntryView) -> Seq<char> {
    dec_rep(e.id as nat) + seq!['\t', ':'] + opt_text(e.project, dash()) + seq!['\t', '+']
        + join_with(e.tags, ',') + seq!['\t'] + opt_text(e.due, dash()) + seq!['\t', '"'] + e.title
        + seq!['"', '\t', '"'] + opt_text(e.desc, Seq::empty()) + seq!['"']
}

/// The encoded data lines for `es`, in order, each ending in a newline.
pub open spec fn encode_lines(es: Seq<EntryView>) -> Seq<char>
    decreases es.len(),
{
    if es.len() == 0 {
        Seq::empty()
    } else {
        encode_lines(es.drop_last()) + encode_line(es.last()) + seq!['\n']
    }
}

/// The full dump text for `es`: the header line, then the data lines.
pub open spec fn dump_text(es: Seq<EntryView>) -> Seq<char> {
    header_text() + seq!['\n'] + encode_lines(es)
}

/// What a due column decodes to: the dash sentinel means unset; anything
/// else must be RFC 3339 text and is normalized to UTC.
pub open spec fn decode_due(t: Seq<char>) -> Result<Option<Seq<char>>, ParseError> {
    if t == dash() {
        Ok(None)
    } else {
        match rfc3339_utc(t) {
            Some(n) => Ok(Some(n)),
            None => Err(ParseError::BadDueDate),
        }
    }
}

/// What one data line decodes to. The line is split on tabs; it must have
/// at least six columns, a numeric id and a well-formed due column. The
/// leading `:` of the project and `+` of the tags are stripped, the tags
/// are split on commas, and the title and description lose one surrounding
/// quote from each end.
pub open spec fn decode_line(s: Seq<char>) -> Result<EntryView, ParseError> {
    let toks = split_on(s, '\t');
    if toks.len() < 6 {
        Err(ParseError::MissingColumns)
    } else if !is_u32_token(toks[0]) {
        Err(ParseError::BadId)
    } else {
        match decode_due(toks[3]) {
            Err(e) => Err(e),
            Ok(due) => Ok(
                EntryView {
                    id: dec_val(toks[0]) as u32,
                    title: strip_quotes(toks[4]),
                    desc: Some(strip_quotes(toks[5])),
                    due: due,
                    project: Some(strip_lead(toks[1], ':')),
                    tags: split_on(strip_lead(toks[2], '+'), ','),
                },
            ),
        }
    }
}

/// What a sequence of data lines decodes to: empty lines are skipped, the
/// rest decode in order, and the first malformed line fails the whole
/// decode.
pub open spec fn decode_lines(lines: Seq<Seq<char>>) -> Result<Seq<EntryView>, ParseError>
    decreases lines.len(),
{
    if lines.len() == 0 {
        Ok(Seq::empty())
    } else {
        match decode_lines(lines.drop_last()) {
            Err(e) => Err(e),
            Ok(rs) => if lines.last().len() == 0 {
                Ok(rs)
            } else {
                match decode_line(lines.last()) {
                    Err(e) => Err(e),
                    Ok(r) => Ok(rs.push(r)),
                }
            },
        }
    }
}

/// What a whole file's text decodes to: the first line is skipped
/// unconditionally, the rest are the data lines.
pub open spec fn load_text(s: Seq<char>) -> Result<Seq<EntryView>, ParseError> {
    decode_lines(split_on(s, '\n').drop_first())
}

/// The encoded line for one entry.
pub fn encode_entry(e: &TaskEntry) -> (r: String)
    ensures
        r@ == encode_line(e@),
{
    let mut out = u32_to_string(e.id);
    out.append("\t:");
    match &e.project {
        Some(p) => out.append(p.as_str()),
        None => out.append("-"),
    }
    out.append("\t+");
    proof {
        reveal_strlit(",");
    }
    let tags_joined = join_strs(&e.tags, ",");
    out.append(tags_joined.as_str());
    out.append("\t");
    match &e.due {
        Some(d) => out.append(d.as_str()),
        None => out.append("-"),
    }
    out.append("\t\"");
    out.append(e.title.as_str());
    out.append("\"\t\"");
    match &e.desc {
        Some(s) => out.append(s.as_str()),
        None => (),
    }
    out.append("\"");
    proof {
        reveal_strlit("\t:");
        reveal_strlit("-");
        reveal_strlit("\t+");
        reveal_strlit(",");
        reveal_strlit("\t");
        reveal_strlit("\t\"");
        reveal_strlit("\"\t\"");
        reveal_strlit("\"");
        assert(","@[0] == ',');
        assert(out@ =~= encode_line(e@));
    }
    out
}

/// `s` is exactly the dash sentinel.
fn is_dash(s: &str) -> (r: bool)
    ensures
        r <==> s@ == dash(),
{
    let n = s.unicode_len();
    if n == 1 && s.get_char(0) == '-' {
        proof {
            assert(s@ =~= dash());
        }
        true
    } else {
        proof {
            if s@ == dash() {
                assert(s@.len() == 1);
                assert(s@[0] == '-');
            }
        }
        false
    }
}

/// The entry decoded from one data line, or the reason the line is
/// malformed.
pub fn decode_entry(line: &str) -> (r: Result<TaskEntry, ParseError>)
    ensures
        match r {
            Ok(e) => decode_line(line@) == Ok::<EntryView, ParseError>(e@),
            Err(er) => decode_line(line@) == Err::<EntryView, ParseError>(er),
        },
{
    let toks = split_str(line, '\t');
    proof {
        assert(toks@.len() == toks.deep_view().len());
    }
    if toks.len() < 6 {
        return Err(ParseError::MissingColumns);
    }
    proof {
        assert forall|i: int| 0 <= i < toks@.len() implies #[trigger] toks@[i]@ == toks.deep_view()[i] by {}
    }
    let id = match parse_u32(toks[0].as_str()) {
        Some(v) => v,
        None => {
            return Err(ParseError::BadId);
        },
    };
    let project = strip_lead_str(toks[1].as_str(), ':');
    let tags_text = strip_lead_str(toks[2].as_str(), '+');
    let tags = split_str(tags_text.as_str(), ',');
    let due: Option<String> = if is_dash(toks[3].as_str()) {
        None
    } else {
        match rfc3339_to_utc(toks[3].as_str()) {
            Some(n) => Some(n),
            None => {
                return Err(ParseError::BadDueDate);
            },
        }
    };
    let title = strip_quotes_str(toks[4].as_str());
    let desc = strip_quotes_str(toks[5].as_str());
    let e = TaskEntry { id, title, desc: Some(desc), due, project: Some(project), tags };
    proof {
        let spec_toks = split_on(line@, '\t');
        assert(e@.due == decode_due(spec_toks[3])->Ok_0);
        assert(decode_line(line@) == Ok::<EntryView, ParseError>(e@));
    }
    Ok(e)
}

/// A task store: the entries of one backing file, identified by its path.
/// The codec itself never touches the file; it only converts between the
/// entry list and the file's text.
pub struct TaskDao {
    pub path: String,
    pub entries: Vec<crate::record::TaskEntry>,
}

impl TaskDao {
    /// A codec for the store at `path`, with no entries yet.
    pub fn new(path: &str) -> (r: Self)
        ensures
            r.path@ == path@,
            r.entries@ == Seq::<crate::record::TaskEntry>::empty(),
    {
        let r = TaskDao { path: path.to_owned(), entries: Vec::new() };
        proof {
            assert(r.entries@ =~= Seq::<crate::record::TaskEntry>::empty());
        }
        r
    }

    /// The full dump text for the held entries: the fixed header line, then
    /// one encoded line per entry, in list order, each ending in a newline.
    pub fn dump(&self) -> (out: String)
        ensures
            out@ == dump_text(self.entries.deep_view()),
    {
        let mut out = String::from_str("id\tproject\ttags\tdue date\ttitle\tdescription\n");
        proof {
            reveal_strlit("id\tproject\ttags\tdue date\ttitle\tdescription\n");
            reveal_strlit("id\tproject\ttags\tdue date\ttitle\tdescription");
            assert(out@ =~= header_text() + seq!['\n']);
            assert(encode_lines(self.entries.deep_view().take(0)) =~= Seq::<char>::empty());
            assert(out@ =~= dump_text(self.entries.deep_view().take(0)));
        }
        let mut i: usize = 0;
        while i < self.entries.len()
            invariant
                0 <= i <= self.entries@.len(),
                self.entries.deep_view().len() == self.entries@.len(),
                out@ == dump_text(self.entries.deep_view().take(i as int)),
            decreases self.entries@.len() - i,
        {
            let line = encode_entry(&self.entries[i]);
            out.append(line.as_str());
            out.append("\n");
            proof {
                reveal_strlit("\n");
                let dv = self.entries.deep_view();
                assert(dv.take(i + 1).drop_last() =~~= dv.take(i as int));
                assert(dv.take(i + 1).last() == dv[i as int]);
                assert(dv[i as int] == self.entries@[i as int]@);
                assert(out@ =~= dump_text(dv.take(i + 1)));
            }
            i = i + 1;
        }
        proof {
            assert(self.entries.deep_view().take(self.entries@.len() as int)
                =~~= self.entries.deep_view());
        }
        out
    }

    /// Decodes `text` and appends the decoded entries, in order, to the held
    /// list. The first line of `text` is skipped unconditionally as the
    /// header; empty lines are skipped; every other line must decode as one
    /// entry. On the first malformed line the whole load fails with that
    /// line's error and the held list is left unchanged.
    pub fn load(&mut self, text: &str) -> (r: Result<(), ParseError>)
        ensures
            match r {
                Ok(_) => load_text(text@) matches Ok(es) && final(self).entries.deep_view()
                    == old(self).entries.deep_view() + es,
                Err(e) => load_text(text@) == Err::<Seq<EntryView>, ParseError>(e)
                    && final(self).entries@ == old(self).entries@,
            },
            final(self).path@ == old(self).path@,
    {
        let lines = split_str(text, '\n');
        proof {
            crate::text::lemma_split_nonempty(text@, '\n');
            assert(lines@.len() == lines.deep_view().len());
            assert forall|i: int| 0 <= i < lines@.len() implies #[trigger] lines@[i]@
                == lines.deep_view()[i] by {}
        }
        let ghost body = lines.deep_view().drop_first();
        let mut parsed: Vec<TaskEntry> = Vec::new();
        proof {
            assert(body.take(0) =~~= Seq::<Seq<char>>::empty());
            assert(parsed.deep_view() =~~= Seq::<EntryView>::empty());
        }
        let mut i: usize = 1;
        while i < lines.len()
            invariant
                1 <= i <= lines@.len(),
                lines@.len() == lines.deep_view().len(),
                lines@.len() >= 1,
                forall|k: int| 0 <= k < lines@.len() ==> #[trigger] lines@[k]@
                    == lines.deep_view()[k],
                lines.deep_view() == split_on(text@, '\n'),
                body == lines.deep_view().drop_first(),
                decode_lines(body.take(i - 1)) == Ok::<Seq<EntryView>, ParseError>(
                    parsed.deep_view(),
                ),
            decreases lines@.len() - i,
        {
            proof {
                assert(body.take(i as int).drop_last() =~~= body.take(i - 1));
                assert(body.take(i as int).last() == lines.deep_view()[i as int]);
            }
            let line = &lines[i];
            if !line.as_str().is_empty() {
                match decode_entry(line.as_str()) {
                    Ok(e) => {
                        let ghost old_parsed = parsed.deep_view();
                        parsed.push(e);
                        proof {
                            assert(parsed.deep_view() =~~= old_parsed.push(e@));
                        }
                    },
                    Err(er) => {
                        proof {
                            lemma_decode_lines_err_at(body, i - 1, er);
                            assert(load_text(text@) == Err::<Seq<EntryView>, ParseError>(er));
                        }
                        return Err(er);
                    },
                }
            }
            i = i + 1;
        }
        proof {
            assert(body.take(lines@.len() - 1) =~~= body);
        }
        let ghost old_entries = self.entries.deep_view();
        self.entries.append(&mut parsed);
        proof {
            assert(self.entries.deep_view() =~~= old_entries + load_text(text@)->Ok_0);
        }
        Ok(())
    }
}

// ---------------------------------------------------------------------------
// Laws
// ---------------------------------------------------------------------------

/// `s` can sit inside one column of one line: it holds neither the tab that
/// separates columns nor the newline that separates lines. The format does
/// no escaping, so such characters would not survive a round trip.
pub open spec fn text_ok(s: Seq<char>) -> bool {
    crate::text::no_char(s, '\t') && crate::text::no_char(s, '\n')
}

/// An entry that a dump-then-load round trip reproduces exactly: every text
/// field free of tabs and newlines, tags free of commas and at least one of
/// them (an empty tag list reloads as one empty tag), project and
/// description set (unset ones reload as `"-"` and `""`), and the due date,
/// when set, already in its UTC-normalized RFC 3339 form, as `load` stores
/// it.
pub open spec fn round_trippable(e: EntryView) -> bool {
    &&& text_ok(e.title)
    &&& e.project matches Some(p) && text_ok(p)
    &&& e.desc matches Some(d) && text_ok(d)
    &&& e.tags.len() >= 1
    &&& (forall|i: int|
        0 <= i < e.tags.len() ==> text_ok(#[trigger] e.tags[i]) && crate::text::no_char(
            e.tags[i],
            ',',
        ))
    &&& (e.due matches Some(d) ==> rfc3339_utc(d) == Some(d) && text_ok(d) && d != dash())
}

/// The six columns of the encoded line for `e`, in order.
spec fn line_tokens(e: EntryView) -> Seq<Seq<char>> {
    seq![
        dec_rep(e.id as nat),
        seq![':'] + opt_text(e.project, dash()),
        seq!['+'] + join_with(e.tags, ','),
        opt_text(e.due, dash()),
        seq!['"'] + e.title + seq!['"'],
        seq!['"'] + opt_text(e.desc, Seq::empty()) + seq!['"'],
    ]
}

/// The encoded lines of `es`, as a sequence of lines.
spec fn encoded_line_seq(es: Seq<EntryView>) -> Seq<Seq<char>> {
    es.map_values(|e: EntryView| encode_line(e))
}

proof fn lemma_no_char_concat(a: Seq<char>, b: Seq<char>, c: char)
    requires
        crate::text::no_char(a, c),
        crate::text::no_char(b, c),
    ensures
        crate::text::no_char(a + b, c),
{
    assert forall|i: int| 0 <= i < (a + b).len() implies #[trigger] (a + b)[i] != c by {
        if i < a.len() {
            assert((a + b)[i] == a[i]);
        } else {
            assert((a + b)[i] == b[i - a.len()]);
        }
    }
}

proof fn lemma_digits_text_ok(s: Seq<char>)
    requires
        crate::text::all_digits(s),
    ensures
        text_ok(s),
{
}

/// A join of six pieces, written out.
proof fn lemma_join6(t: Seq<Seq<char>>, sep: char)
    requires
        t.len() == 6,
    ensures
        join_with(t, sep) == t[0] + seq![sep] + t[1] + seq![sep] + t[2] + seq![sep] + t[3]
            + seq![sep] + t[4] + seq![sep] + t[5],
{
    let a = t.drop_last();
    let b = a.drop_last();
    let c = b.drop_last();
    let d = c.drop_last();
    let f = d.drop_last();
    assert(join_with(f, sep) == t[0]);
    assert(join_with(d, sep) == t[0] + seq![sep] + t[1]);
    assert(join_with(c, sep) == join_with(d, sep) + seq![sep] + t[2]);
    assert(join_with(b, sep) == join_with(c, sep) + seq![sep] + t[3]);
    assert(join_with(a, sep) == join_with(b, sep) + seq![sep] + t[4]);
    assert(join_with(t, sep) == join_with(a, sep) + seq![sep] + t[5]);
    assert(join_with(t, sep) =~= t[0] + seq![sep] + t[1] + seq![sep] + t[2] + seq![sep] + t[3]
        + seq![sep] + t[4] + seq![sep] + t[5]);
}

/// For a round-trippable entry, the encoded line is the tab-join of its six
/// columns, each free of tabs and newlines; the whole line is nonempty and
/// free of newlines.
proof fn lemma_line_tokens(e: EntryView)
    requires
        round_trippable(e),
    ensures
        encode_line(e) == join_with(line_tokens(e), '\t'),
        forall|i: int|
            0 <= i < 6 ==> crate::text::no_char(#[trigger] line_tokens(e)[i], '\t')
                && crate::text::no_char(line_tokens(e)[i], '\n'),
        crate::text::no_char(encode_line(e), '\n'),
        encode_line(e).len() > 0,
{
    let t = line_tokens(e);
    crate::text::lemma_dec_rep(e.id as nat);
    lemma_digits_text_ok(t[0]);
    let p = opt_text(e.project, dash());
    let du = opt_text(e.due, dash());
    let de = opt_text(e.desc, Seq::empty());
    assert(text_ok(dash()));
    assert(text_ok(p));
    assert(text_ok(du));
    assert(text_ok(de));
    crate::text::lemma_join_no_char(e.tags, ',', '\t');
    crate::text::lemma_join_no_char(e.tags, ',', '\n');
    let j = join_with(e.tags, ',');
    assert(text_ok(seq![':']));
    assert(text_ok(seq!['+']));
    assert(text_ok(seq!['"']));
    lemma_no_char_concat(seq![':'], p, '\t');
    lemma_no_char_concat(seq![':'], p, '\n');
    lemma_no_char_concat(seq!['+'], j, '\t');
    lemma_no_char_concat(seq!['+'], j, '\n');
    lemma_no_char_concat(seq!['"'], e.title, '\t');
    lemma_no_char_concat(seq!['"'] + e.title, seq!['"'], '\t');
    lemma_no_char_concat(seq!['"'], e.title, '\n');
    lemma_no_char_concat(seq!['"'] + e.title, seq!['"'], '\n');
    lemma_no_char_concat(seq!['"'], de, '\t');
    lemma_no_char_concat(seq!['"'] + de, seq!['"'], '\t');
    lemma_no_char_concat(seq!['"'], de, '\n');
    lemma_no_char_concat(seq!['"'] + de, seq!['"'], '\n');
    assert forall|i: int| 0 <= i < 6 implies crate::text::no_char(#[trigger] t[i], '\t')
        && crate::text::no_char(t[i], '\n') by {
        assert(t[1] == seq![':'] + p);
        assert(t[2] == seq!['+'] + j);
        assert(t[4] == seq!['"'] + e.title + seq!['"']);
        assert(t[5] == seq!['"'] + de + seq!['"']);
    }
    lemma_join6(t, '\t');
    assert(encode_line(e) =~= join_with(t, '\t'));
    crate::text::lemma_join_no_char(t, '\t', '\n');
    assert(encode_line(e).len() >= t[0].len());
}

/// Law: decoding the encoded line of a round-trippable entry gives back
/// exactly that entry.
pub proof fn lemma_encode_decode_line(e: EntryView)
    requires
        round_trippable(e),
    ensures
        decode_line(encode_line(e)) == Ok::<EntryView, ParseError>(e),
{
    let t = line_tokens(e);
    lemma_line_tokens(e);
    assert(forall|i: int| 0 <= i < t.len() ==> crate::text::no_char(#[trigger] t[i], '\t'));
    crate::text::lemma_split_join(t, '\t');
    let toks = split_on(encode_line(e), '\t');
    assert(toks == t);
    crate::text::lemma_dec_rep(e.id as nat);
    assert(is_u32_token(toks[0]));
    assert(dec_val(toks[0]) == e.id);
    let p = opt_text(e.project, dash());
    assert(strip_lead(toks[1], ':') =~= p);
    let j = join_with(e.tags, ',');
    assert(strip_lead(toks[2], '+') =~= j);
    crate::text::lemma_split_join(e.tags, ',');
    assert(split_on(strip_lead(toks[2], '+'), ',') == e.tags);
    let du = opt_text(e.due, dash());
    assert(toks[3] == du);
    if e.due is Some {
        assert(decode_due(toks[3]) == Ok::<Option<Seq<char>>, ParseError>(e.due));
    } else {
        assert(toks[3] == dash());
        assert(decode_due(toks[3]) == Ok::<Option<Seq<char>>, ParseError>(None::<Seq<char>>));
    }
    assert(toks[4] == seq!['"'] + e.title + seq!['"']);
    assert(toks[4].len() >= 2 && toks[4][0] == '"' && toks[4].last() == '"');
    assert(strip_quotes(toks[4]) =~= e.title);
    let de = opt_text(e.desc, Seq::empty());
    assert(toks[5] == seq!['"'] + de + seq!['"']);
    assert(strip_quotes(toks[5]) =~= de);
    let r = decode_line(encode_line(e))->Ok_0;
    assert(r.id == e.id);
    assert(r.title == e.title);
    assert(r.desc == e.desc);
    assert(r.due == e.due);
    assert(r.project == e.project);
    assert(r.tags == e.tags);
}

/// The header line holds no newline and is not empty.
proof fn lemma_header_text()
    ensures
        crate::text::no_char(header_text(), '\n'),
        header_text().len() > 0,
{
    reveal_strlit("id\tproject\ttags\tdue date\ttitle\tdescription");
}

/// Splitting the encoded data lines on newlines gives exactly those lines,
/// plus one empty piece after the final newline.
proof fn lemma_split_encoded_lines(es: Seq<EntryView>)
    requires
        forall|i: int| 0 <= i < es.len() ==> round_trippable(#[trigger] es[i]),
    ensures
        split_on(encode_lines(es), '\n') == encoded_line_seq(es) + seq![Seq::<char>::empty()],
    decreases es.len(),
{
    if es.len() == 0 {
        assert(encode_lines(es) =~= Seq::<char>::empty());
        assert(split_on(encode_lines(es), '\n') =~~= encoded_line_seq(es) + seq![
            Seq::<char>::empty(),
        ]);
    } else {
        let prefix = es.drop_last();
        assert(forall|i: int| 0 <= i < prefix.len() ==> round_trippable(#[trigger] prefix[i]));
        lemma_split_encoded_lines(prefix);
        let x = encode_lines(prefix);
        let l = encode_line(es.last());
        lemma_line_tokens(es.last());
        crate::text::lemma_split_append_free(x, l, '\n');
        let r = split_on(x, '\n');
        assert(r == encoded_line_seq(prefix) + seq![Seq::<char>::empty()]);
        assert(r.last() == Seq::<char>::empty());
        assert(r.last() + l =~= l);
        let r1 = split_on(x + l, '\n');
        assert(r1 =~~= encoded_line_seq(prefix) + seq![l]);
        assert(x + l + seq!['\n'] =~= (x + l).push('\n'));
        crate::text::lemma_split_push_sep(x + l, '\n');
        assert(encode_lines(es) == x + l + seq!['\n']);
        assert(split_on(encode_lines(es), '\n') =~~= encoded_line_seq(prefix) + seq![l] + seq![
            Seq::<char>::empty(),
        ]);
        assert(encoded_line_seq(es) =~~= encoded_line_seq(prefix) + seq![l]);
    }
}

/// Decoding the encoded lines of round-trippable entries gives back exactly
/// those entries.
proof fn lemma_decode_encoded_lines(es: Seq<EntryView>)
    requires
        forall|i: int| 0 <= i < es.len() ==> round_trippable(#[trigger] es[i]),
    ensures
        decode_lines(encoded_line_seq(es)) == Ok::<Seq<EntryView>, ParseError>(es),
    decreases es.len(),
{
    let m = encoded_line_seq(es);
    if es.len() == 0 {
        assert(m =~~= Seq::<Seq<char>>::empty());
        assert(es =~~= Seq::<EntryView>::empty());
    } else {
        let prefix = es.drop_last();
        assert(forall|i: int| 0 <= i < prefix.len() ==> round_trippable(#[trigger] prefix[i]));
        lemma_decode_encoded_lines(prefix);
        assert(m.drop_last() =~~= encoded_line_seq(prefix));
        assert(m.last() == encode_line(es.last()));
        lemma_line_tokens(es.last());
        assert(m.last().len() != 0);
        lemma_encode_decode_line(es.last());
        assert(decode_lines(m) == Ok::<Seq<EntryView>, ParseError>(prefix.push(es.last())));
        assert(prefix.push(es.last()) =~~= es);
    }
}

/// Law (round trip): loading the dump of round-trippable entries yields
/// exactly those entries.
pub proof fn lemma_load_dump_round_trip(es: Seq<EntryView>)
    requires
        forall|i: int| 0 <= i < es.len() ==> round_trippable(#[trigger] es[i]),
    ensures
        load_text(dump_text(es)) == Ok::<Seq<EntryView>, ParseError>(es),
{
    lemma_header_text();
    crate::text::lemma_split_prepend(header_text(), encode_lines(es), '\n');
    assert(header_text() + seq!['\n'] + encode_lines(es) == dump_text(es));
    lemma_split_encoded_lines(es);
    let body = encoded_line_seq(es) + seq![Seq::<char>::empty()];
    assert(split_on(dump_text(es), '\n') == seq![header_text()] + body);
    assert((seq![header_text()] + body).drop_first() =~~= body);
    assert(body.drop_last() =~~= encoded_line_seq(es));
    assert(body.last() == Seq::<char>::empty());
    lemma_decode_encoded_lines(es);
    assert(decode_lines(body) == Ok::<Seq<EntryView>, ParseError>(es));
}

/// Law: the dump of no entries is exactly the header line and its newline,
/// and loading that text gives no entries.
pub proof fn lemma_dump_empty()
    ensures
        dump_text(Seq::empty()) == header_text() + seq!['\n'],
        load_text(header_text() + seq!['\n']) == Ok::<Seq<EntryView>, ParseError>(
            Seq::<EntryView>::empty(),
        ),
{
    assert(dump_text(Seq::empty()) =~= header_text() + seq!['\n']);
    lemma_load_dump_round_trip(Seq::empty());
}

/// Law: an entry with no project, no tags, no due date and no description
/// encodes with `:-` for the project, a bare `+` for the tags, the dash for
/// the due date, the quoted title as given, and `""` for the description.
pub proof fn lemma_encode_unset(e: EntryView)
    requires
        e.project is None,
        e.due is None,
        e.desc is None,
        e.tags == Seq::<Seq<char>>::empty(),
    ensures
        encode_line(e) == dec_rep(e.id as nat) + seq!['\t', ':', '-', '\t', '+', '\t', '-', '\t', '"']
            + e.title + seq!['"', '\t', '"', '"'],
{
    assert(join_with(e.tags, ',') =~= Seq::<char>::empty());
    assert(encode_line(e) =~= dec_rep(e.id as nat) + seq!['\t', ':', '-', '\t', '+', '\t', '-', '\t', '"']
        + e.title + seq!['"', '\t', '"', '"']);
}

/// Law: a line whose due column is the dash sentinel decodes, when it
/// decodes at all, to an entry with no due date.
pub proof fn lemma_dash_due_unset(s: Seq<char>)
    requires
        decode_line(s) is Ok,
        split_on(s, '\t')[3] == dash(),
    ensures
        (decode_line(s)->Ok_0).due is None,
{
}

/// A decode of `lines` fails whenever some nonempty line of it fails.
proof fn lemma_decode_lines_err_any(lines: Seq<Seq<char>>, k: int)
    requires
        0 <= k < lines.len(),
        lines[k].len() != 0,
        decode_line(lines[k]) is Err,
    ensures
        decode_lines(lines) is Err,
    decreases lines.len(),
{
    if k < lines.len() - 1 {
        assert(lines.drop_last()[k] == lines[k]);
        lemma_decode_lines_err_any(lines.drop_last(), k);
    }
}

/// Law: a data line whose id column is not a decimal `u32` token makes the
/// whole load fail, whatever the rest of the text holds.
pub proof fn lemma_bad_id_fails_load(text: Seq<char>, k: int)
    requires
        0 <= k,
        k + 1 < split_on(text, '\n').len(),
        split_on(text, '\n')[k + 1].len() != 0,
        !is_u32_token(split_on(split_on(text, '\n')[k + 1], '\t')[0]),
    ensures
        load_text(text) is Err,
{
    let body = split_on(text, '\n').drop_first();
    assert(body[k] == split_on(text, '\n')[k + 1]);
    assert(decode_line(body[k]) is Err);
    lemma_decode_lines_err_any(body, k);
}

/// A decode of `lines` fails whenever a nonempty line of it fails, with
/// the first such line's error if all lines before it decode.
proof fn lemma_decode_lines_err_at(lines: Seq<Seq<char>>, k: int, e: ParseError)
    requires
        0 <= k < lines.len(),
        lines[k].len() != 0,
        decode_line(lines[k]) == Err::<EntryView, ParseError>(e),
        decode_lines(lines.take(k)) is Ok,
    ensures
        decode_lines(lines) == Err::<Seq<EntryView>, ParseError>(e),
    decreases lines.len(),
{
    if k == lines.len() - 1 {
        assert(lines.take(k) =~~= lines.drop_last());
    } else {
        assert(lines.drop_last().take(k) =~~= lines.take(k));
        assert(lines.drop_last()[k] == lines[k]);
        lemma_decode_lines_err_at(lines.drop_last(), k, e);
    }
}

} // verus!
