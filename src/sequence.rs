//! Named sequences, and the records of a multi-FASTA text.
use vstd::prelude::*;
use crate::codec::chars_of;
use crate::codec::iupac_chars;
use crate::codec::iupac_only;
use crate::codec::string_from_chars;

verus! {

/// The header of a sequence.
#[derive(Clone, Debug, PartialEq)]
pub struct SequenceHeader(pub String);

/// The residues of a sequence.
#[derive(Clone, Debug, PartialEq)]
pub struct SequenceBody(pub String);

impl SequenceHeader {
    /// A header of the given text.
    pub fn new(header: String) -> (r: Self)
        ensures
            r.0@ == header@,
    {
        SequenceHeader(header)
    }

    /// The text of the header.
    pub fn header(&self) -> (r: &str)
        ensures
            r@ == self.0@,
    {
        self.0.as_str()
    }
}

impl SequenceBody {
    /// A body of the given residues.
    pub fn new(body: String) -> (r: Self)
        ensures
            r.0@ == body@,
    {
        SequenceBody(body)
    }

    /// The residues.
    pub fn seq(&self) -> (r: &str)
        ensures
            r@ == self.0@,
    {
        self.0.as_str()
    }

    /// The sequence upper-cased, with every character other than `A`, `C`,
    /// `G`, `T` removed.
    pub fn remove_non_iupac_from_sequence(sequence: &str) -> (r: String)
        ensures
            r@ == iupac_only(sequence@),
    {
        let chars = iupac_chars(sequence);
        string_from_chars(&chars)
    }
}

/// A named sequence.
#[derive(Clone, Debug)]
pub struct Sequence {
    header: SequenceHeader,
    sequence: SequenceBody,
}

impl Sequence {
    /// The header and the residues, as text.
    pub closed spec fn pair(&self) -> (Seq<char>, Seq<char>) {
        (self.header.0@, self.sequence.0@)
    }

    /// A sequence of the given header and residues.
    pub fn new(header: String, sequence: String) -> (r: Self)
        ensures
            r.pair() == (header@, sequence@),
    {
        Sequence { header: SequenceHeader::new(header), sequence: SequenceBody::new(sequence) }
    }

    /// The header.
    pub fn header(&self) -> (r: &SequenceHeader)
        ensures
            r.0@ == self.pair().0,
    {
        &self.header
    }

    /// The text of the header.
    pub fn header_content(&self) -> (r: &str)
        ensures
            r@ == self.pair().0,
    {
        self.header.header()
    }

    /// The residues.
    pub fn sequence(&self) -> (r: &SequenceBody)
        ensures
            r.0@ == self.pair().1,
    {
        &self.sequence
    }

    /// The text of the residues.
    pub fn sequence_content(&self) -> (r: &str)
        ensures
            r@ == self.pair().1,
    {
        self.sequence.seq()
    }

    /// The sequence as a FASTA record: `>`, the header, a line break, the
    /// residues, a line break.
    pub fn to_fasta(&self) -> (r: String)
        ensures
            r@ == seq!['>'] + self.pair().0 + seq!['\n'] + self.pair().1 + seq!['\n'],
    {
        let mut out: Vec<char> = Vec::new();
        out.push('>');
        let mut h = chars_of(self.header.0.as_str());
        out.append(&mut h);
        out.push('\n');
        let mut b = chars_of(self.sequence.0.as_str());
        out.append(&mut b);
        out.push('\n');
        assert(out@ =~= seq!['>'] + self.pair().0 + seq!['\n'] + self.pair().1 + seq!['\n']);
        string_from_chars(&out)
    }
}

/// A multiple sequence alignment.
#[derive(Clone, Debug)]
pub struct Msa;

impl Msa {
    /// An alignment.
    pub fn new() -> Self {
        Msa
    }
}

/// Why reading sequences failed.
#[derive(Debug, PartialEq, Eq)]
pub enum StdinError {
    /// Standard input was named more than once.
    StdInRepeatedUse,
    /// Reading failed.
    StdIn(String),
    /// The text is not a multi-FASTA text.
    FromStr(String),
}

/// Where sequences are read from.
#[derive(Clone, Debug, PartialEq, Eq)]
pub enum Source {
    /// Standard input.
    Stdin,
    /// A file path.
    Arg(String),
}

/// A source of sequences: a file, or standard input.
#[derive(Clone, Debug)]
pub struct FileOrStdin {
    /// Where the sequences are read from.
    pub source: Source,
}

/// A line without its `>` characters.
pub open spec fn without_marks(line: Seq<char>) -> Seq<char>
    decreases line.len(),
{
    if line.len() == 0 {
        line
    } else if line.last() == '>' {
        without_marks(line.drop_last())
    } else {
        without_marks(line.drop_last()).push(line.last())
    }
}

/// The state of a read: the current header, the current residues, and the
/// records finished so far.
pub type FastaState = (Seq<char>, Seq<char>, Seq<(Seq<char>, Seq<char>)>);

/// The state after one more line, or `None` when residues come before any
/// header. Empty lines are skipped; a header line finishes the record under
/// way, if it has a header; other lines add their IUPAC residues.
pub open spec fn fasta_step(st: FastaState, line: Seq<char>) -> Option<FastaState> {
    if line.len() == 0 {
        Some(st)
    } else if line[0] == '>' {
        if st.0.len() > 0 {
            Some((without_marks(line), Seq::empty(), st.2.push((st.0, st.1))))
        } else if st.1.len() > 0 {
            None
        } else {
            Some((without_marks(line), st.1, st.2))
        }
    } else {
        Some((st.0, st.1 + iupac_only(line), st.2))
    }
}

/// The state after all the lines.
pub open spec fn fasta_fold(lines: Seq<Seq<char>>) -> Option<FastaState>
    decreases lines.len(),
{
    if lines.len() == 0 {
        Some((Seq::empty(), Seq::empty(), Seq::empty()))
    } else {
        match fasta_fold(lines.drop_last()) {
            Some(st) => fasta_step(st, lines.last()),
            None => None,
        }
    }
}

/// The records of a multi-FASTA text given by lines; the last record counts
/// only when it has a header and residues.
pub open spec fn fasta_records(lines: Seq<Seq<char>>) -> Option<Seq<(Seq<char>, Seq<char>)>> {
    match fasta_fold(lines) {
        Some(st) => Some(
            if st.0.len() > 0 && st.1.len() > 0 {
                st.2.push((st.0, st.1))
            } else {
                st.2
            },
        ),
        None => None,
    }
}

/// The text of each line.
pub open spec fn lines_view(lines: Seq<String>) -> Seq<Seq<char>> {
    lines.map_values(|l: String| l@)
}

/// The header and residues of each sequence.
pub open spec fn records_view(v: Seq<Sequence>) -> Seq<(Seq<char>, Seq<char>)> {
    v.map_values(|s: Sequence| s.pair())
}

/// A read that fails on a prefix of the lines fails on all of them.
proof fn lemma_fold_stays_none(lines: Seq<Seq<char>>, i: int)
    requires
        0 <= i <= lines.len(),
        fasta_fold(lines.take(i)) is None,
    ensures
        fasta_fold(lines) is None,
    decreases lines.len() - i,
{
    if i < lines.len() {
        assert(lines.take(i + 1).drop_last() =~= lines.take(i));
        lemma_fold_stays_none(lines, i + 1);
    } else {
        assert(lines.take(i) =~= lines);
    }
}

/// A line without its `>` characters.
fn strip_marks(line: &Vec<char>) -> (r: Vec<char>)
    ensures
        r@ == without_marks(line@),
{
    let mut out: Vec<char> = Vec::new();
    let mut i: usize = 0;
    while i < line.len()
        invariant
            i <= line.len(),
            out@ == without_marks(line@.take(i as int)),
        decreases line.len() - i,
    {
        assert(line@.take(i + 1).drop_last() =~= line@.take(i as int));
        if line[i] != '>' {
            out.push(line[i]);
        }
        i = i + 1;
    }
    assert(line@.take(line.len() as int) =~= line@);
    out
}

impl FileOrStdin {
    /// A source reading the file at `file`.
    pub fn from_file(file: &str) -> (r: Self)
        ensures
            r.source matches Source::Arg(p) && p@ == file@,
    {
        let chars = chars_of(file);
        FileOrStdin { source: Source::Arg(string_from_chars(&chars)) }
    }

    /// The records of a multi-FASTA text given by lines: a line starting with
    /// `>` opens a record, named by the line without its `>` characters; the
    /// other lines give residues, kept after the IUPAC filter. Fails when
    /// residues come before any header.
    pub fn sequence_content(lines: &Vec<String>) -> (r: Result<Vec<Sequence>, StdinError>)
        ensures
            match r {
                Ok(v) => fasta_records(lines_view(lines@)) == Some(records_view(v@)),
                Err(e) => fasta_records(lines_view(lines@)) is None && e is FromStr,
            },
    {
        let ghost ls = lines_view(lines@);
        let mut sequences: Vec<Sequence> = Vec::new();
        let mut header: Vec<char> = Vec::new();
        let mut body: Vec<char> = Vec::new();
        let mut i: usize = 0;
        while i < lines.len()
            invariant
                i <= lines.len(),
                ls == lines_view(lines@),
                fasta_fold(ls.take(i as int)) == Some::<FastaState>((header@, body@, records_view(sequences@))),
            decreases lines.len() - i,
        {
            let line = chars_of(lines[i].as_str());
            assert(ls[i as int] == line@);
            assert(ls.take(i + 1).drop_last() =~= ls.take(i as int));
            assert(ls.take(i + 1).last() == line@);
            if line.len() == 0 {
            } else if line[0] == '>' {
                if header.len() > 0 {
                    let h = string_from_chars(&header);
                    let b = string_from_chars(&body);
                    let ghost before = sequences@;
                    sequences.push(Sequence::new(h, b));
                    assert(records_view(sequences@) =~= records_view(before).push((header@, body@)));
                    body = Vec::new();
                } else if body.len() > 0 {
                    proof {
                        lemma_fold_stays_none(ls, i + 1);
                    }
                    return Err(StdinError::FromStr("unexpected sequence without header".to_string()));
                }
                header = strip_marks(&line);
            } else {
                let mut residues = iupac_chars(lines[i].as_str());
                body.append(&mut residues);
            }
            i = i + 1;
        }
        assert(ls.take(lines.len() as int) =~= ls);
        if header.len() > 0 && body.len() > 0 {
            let h = string_from_chars(&header);
            let b = string_from_chars(&body);
            let ghost before = sequences@;
            sequences.push(Sequence::new(h, b));
            assert(records_view(sequences@) =~= records_view(before).push((header@, body@)));
        }
        Ok(sequences)
    }
}

} // verus!
