use vstd::prelude::*;

use crate::entry::{decode_line, DecodeError, WordEntry, WordEntryView, FIELD_SEP};
use crate::split::{split_on, views};

verus! {

/// The number of header lines at the top of a dictionary file; they are
/// skipped unread.
pub const HEADER_LINES: usize = 6;

/// A line that could not be decoded, with its 1-based position in the file.
#[derive(Debug)]
pub struct Diagnostic {
    pub line_number: usize,
    pub error: DecodeError,
}

/// Why a whole file was refused.
#[derive(Debug, Clone, Copy, PartialEq, Eq, Structural)]
pub enum LoadError {
    /// `count` data lines were malformed.
    AggregateFailure { count: usize },
}

/// The entries that the data lines of `lines` decode to, in file order;
/// malformed lines contribute nothing.
pub open spec fn decoded_entries(lines: Seq<Seq<char>>) -> Seq<WordEntryView>
    decreases lines.len(),
{
    if lines.len() <= HEADER_LINES {
        Seq::empty()
    } else {
        let prev = decoded_entries(lines.drop_last());
        match decode_line(lines.last()) {
            Some(e) => prev.push(e),
            None => prev,
        }
    }
}

/// The 1-based numbers of the malformed data lines of `lines`, ascending.
pub open spec fn malformed_lines(lines: Seq<Seq<char>>) -> Seq<int>
    decreases lines.len(),
{
    if lines.len() <= HEADER_LINES {
        Seq::empty()
    } else {
        let prev = malformed_lines(lines.drop_last());
        match decode_line(lines.last()) {
            Some(_) => prev,
            None => prev.push(lines.len() as int),
        }
    }
}

/// What loading `lines` as a whole file gives: every entry where no data
/// line is malformed, else the count of malformed lines.
pub open spec fn load_outcome(lines: Seq<Seq<char>>) -> Result<Seq<WordEntryView>, LoadError> {
    let m = malformed_lines(lines);
    if m.len() == 0 {
        Ok(decoded_entries(lines))
    } else {
        Err(LoadError::AggregateFailure { count: m.len() as usize })
    }
}

/// The views of a list of entries.
pub open spec fn entry_views(v: Seq<WordEntry>) -> Seq<WordEntryView> {
    v.map_values(|e: WordEntry| e@)
}

/// There are never more malformed lines than lines.
pub proof fn lemma_malformed_bounded(lines: Seq<Seq<char>>)
    ensures
        malformed_lines(lines).len() <= lines.len(),
    decreases lines.len(),
{
    if lines.len() > HEADER_LINES {
        lemma_malformed_bounded(lines.drop_last());
    }
}

/// The malformed lines are exactly the data lines that do not decode: each
/// number lies past the header and names such a line, the numbers ascend
/// (so none is reported twice), and every such line is among them. A file
/// with any of them fails as a whole, with their count.
pub proof fn lemma_malformed_lines_exact(lines: Seq<Seq<char>>)
    ensures
        forall|k: int|
            0 <= k < malformed_lines(lines).len() ==> HEADER_LINES < (#[trigger] malformed_lines(
                lines,
            )[k]) <= lines.len() && decode_line(lines[malformed_lines(lines)[k] - 1]) is None,
        forall|k: int, l: int|
            0 <= k < l < malformed_lines(lines).len() ==> #[trigger] malformed_lines(lines)[k]
                < #[trigger] malformed_lines(lines)[l],
        forall|j: int|
            HEADER_LINES <= j < lines.len() && decode_line(#[trigger] lines[j]) is None
                ==> malformed_lines(lines).contains(j + 1),
        malformed_lines(lines).len() > 0 ==> load_outcome(lines) == Err::<
            Seq<WordEntryView>,
            LoadError,
        >(LoadError::AggregateFailure { count: malformed_lines(lines).len() as usize }),
    decreases lines.len(),
{
    if lines.len() > HEADER_LINES {
        let t = lines.drop_last();
        lemma_malformed_lines_exact(t);
        let m = malformed_lines(lines);
        let pm = malformed_lines(t);
        assert forall|j: int|
            HEADER_LINES <= j < lines.len() && decode_line(#[trigger] lines[j]) is None
                implies m.contains(j + 1) by {
            if j < t.len() {
                assert(t[j] == lines[j]);
                let k = choose|k: int| 0 <= k < pm.len() && pm[k] == j + 1;
                assert(m[k] == j + 1);
            } else {
                assert(m[m.len() - 1] == j + 1);
            }
        }
        assert forall|k: int| 0 <= k < m.len() implies HEADER_LINES < (#[trigger] m[k])
            <= lines.len() && decode_line(lines[m[k] - 1]) is None by {
            if k < pm.len() {
                assert(m[k] == pm[k]);
                assert(t[pm[k] - 1] == lines[m[k] - 1]);
            }
        }
    }
}

/// A file whose data lines all decode gives one entry per data line, each
/// what its line decodes to, in file order.
pub proof fn lemma_wellformed_file(lines: Seq<Seq<char>>)
    requires
        lines.len() >= HEADER_LINES,
        forall|j: int| HEADER_LINES <= j < lines.len() ==> (#[trigger] decode_line(lines[j])) is Some,
    ensures
        malformed_lines(lines).len() == 0,
        decoded_entries(lines).len() == lines.len() - HEADER_LINES,
        forall|k: int|
            0 <= k < lines.len() - HEADER_LINES ==> decode_line(lines[HEADER_LINES + k]) == Some(
                #[trigger] decoded_entries(lines)[k],
            ),
        load_outcome(lines) == Ok::<Seq<WordEntryView>, LoadError>(decoded_entries(lines)),
    decreases lines.len(),
{
    if lines.len() > HEADER_LINES {
        let t = lines.drop_last();
        assert forall|j: int| HEADER_LINES <= j < t.len() implies (#[trigger] decode_line(
            t[j],
        )) is Some by {
            assert(t[j] == lines[j]);
        }
        lemma_wellformed_file(t);
        assert(decode_line(lines[lines.len() - 1]) is Some);
        let d = decoded_entries(lines);
        assert forall|k: int| 0 <= k < lines.len() - HEADER_LINES implies decode_line(
            lines[HEADER_LINES + k],
        ) == Some(#[trigger] d[k]) by {
            if k < t.len() - HEADER_LINES {
                assert(t[HEADER_LINES + k] == lines[HEADER_LINES + k]);
                assert(d[k] == decoded_entries(t)[k]);
            }
        }
    } else {
        assert(malformed_lines(lines).len() == 0);
    }
}

/// Scans a dictionary file line by line: the header is skipped, each data
/// line decoded, entries kept in order and malformed lines counted.
pub struct Loader {
    lines_seen: usize,
    entries: Vec<WordEntry>,
    errors: usize,
    seen: Ghost<Seq<Seq<char>>>,
}

impl View for Loader {
    type V = Seq<Seq<char>>;

    /// The lines fed so far.
    closed spec fn view(&self) -> Seq<Seq<char>> {
        self.seen@
    }
}

impl Loader {
    /// The counters and the kept entries agree with the lines fed so far.
    pub closed spec fn wf(&self) -> bool {
        &&& self.lines_seen as int == self.seen@.len()
        &&& entry_views(self.entries@) == decoded_entries(self.seen@)
        &&& self.errors as int == malformed_lines(self.seen@).len()
    }

    /// A loader that has seen no line.
    pub fn new() -> (r: Loader)
        ensures
            r.wf(),
            r@ == Seq::<Seq<char>>::empty(),
    {
        let r = Loader { lines_seen: 0, entries: Vec::new(), errors: 0, seen: Ghost(Seq::empty()) };
        assert(entry_views(r.entries@) =~= decoded_entries(r.seen@));
        r
    }

    /// The number of lines fed so far.
    pub fn lines_seen(&self) -> (r: usize)
        requires
            self.wf(),
        ensures
            r as int == self@.len(),
    {
        self.lines_seen
    }

    /// Takes the next line of the file. A malformed data line is reported
    /// with its 1-based line number; the scan goes on either way.
    pub fn feed(&mut self, line: &str) -> (d: Option<Diagnostic>)
        requires
            old(self).wf(),
            old(self)@.len() < usize::MAX,
        ensures
            final(self).wf(),
            final(self)@ == old(self)@.push(line@),
            d is Some <==> (old(self)@.len() >= HEADER_LINES && decode_line(line@) is None),
            match d {
                Some(g) => g.line_number as int == final(self)@.len() && match g.error {
                    DecodeError::MalformedLine { fields } => views(fields@) == split_on(
                        line@,
                        FIELD_SEP,
                    ),
                },
                None => true,
            },
    {
        let ghost lines = self.seen@.push(line@);
        proof {
            assert(lines.drop_last() =~= self.seen@);
            lemma_malformed_bounded(self.seen@);
        }
        let number = self.lines_seen + 1;
        self.lines_seen = number;
        self.seen = Ghost(lines);
        if number <= HEADER_LINES {
            return None;
        }
        match WordEntry::from_line(line) {
            Ok(e) => {
                let ghost before = self.entries@;
                self.entries.push(e);
                assert(entry_views(self.entries@) =~= entry_views(before).push(e@));
                None
            },
            Err(error) => {
                self.errors = self.errors + 1;
                Some(Diagnostic { line_number: number, error })
            },
        }
    }

    /// Ends the scan: every entry in file order where no data line was
    /// malformed, else the number of malformed lines and no entry at all.
    pub fn finish(self) -> (r: Result<Vec<WordEntry>, LoadError>)
        requires
            self.wf(),
        ensures
            match (r, load_outcome(self@)) {
                (Ok(v), Ok(w)) => entry_views(v@) == w,
                (Err(e), Err(f)) => e == f,
                _ => false,
            },
    {
        if self.errors > 0 {
            Err(LoadError::AggregateFailure { count: self.errors })
        } else {
            Ok(self.entries)
        }
    }
}

/// The outcome of loading a whole file: the diagnostics for its malformed
/// lines, in file order, and the overall result.
pub struct LoadReport {
    pub diagnostics: Vec<Diagnostic>,
    pub result: Result<Vec<WordEntry>, LoadError>,
}

/// The line numbers of a list of diagnostics.
pub open spec fn diagnostic_lines(d: Seq<Diagnostic>) -> Seq<int> {
    d.map_values(|g: Diagnostic| g.line_number as int)
}

/// Loads the lines of a dictionary file: skips the header, decodes every
/// data line, reports each malformed one, and succeeds only where none is.
pub fn parse_udtaleordbog(lines: &Vec<String>) -> (r: LoadReport)
    ensures
        diagnostic_lines(r.diagnostics@) == malformed_lines(views(lines@)),
        forall|k: int|
            0 <= k < r.diagnostics@.len() ==> match (#[trigger] r.diagnostics@[k]).error {
                DecodeError::MalformedLine { fields } => views(fields@) == split_on(
                    lines@[r.diagnostics@[k].line_number - 1]@,
                    FIELD_SEP,
                ),
            },
        match (r.result, load_outcome(views(lines@))) {
            (Ok(v), Ok(w)) => entry_views(v@) == w,
            (Err(e), Err(f)) => e == f,
            _ => false,
        },
{
    let mut loader = Loader::new();
    let mut diagnostics: Vec<Diagnostic> = Vec::new();
    let mut i: usize = 0;
    while i < lines.len()
        invariant
            i <= lines@.len(),
            loader.wf(),
            loader@ == views(lines@).take(i as int),
            diagnostic_lines(diagnostics@) == malformed_lines(loader@),
            forall|k: int|
                0 <= k < diagnostics@.len() ==> 1 <= (#[trigger] diagnostics@[k]).line_number <= i
                    && match diagnostics@[k].error {
                    DecodeError::MalformedLine { fields } => views(fields@) == split_on(
                        lines@[diagnostics@[k].line_number - 1]@,
                        FIELD_SEP,
                    ),
                },
        decreases lines@.len() - i,
    {
        let ghost before = loader@;
        let d = loader.feed(lines[i].as_str());
        proof {
            assert(views(lines@).take(i + 1) =~= views(lines@).take(i as int).push(lines@[i as int]@));
            assert(loader@.drop_last() =~= before);
        }
        match d {
            Some(g) => {
                let ghost dbefore = diagnostics@;
                diagnostics.push(g);
                assert(diagnostic_lines(diagnostics@) =~= diagnostic_lines(dbefore).push(
                    (i + 1) as int,
                ));
            },
            None => {},
        }
        i = i + 1;
    }
    assert(views(lines@).take(i as int) =~= views(lines@));
    LoadReport { diagnostics, result: loader.finish() }
}

} // verus!
